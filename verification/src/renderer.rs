use vstd::prelude::*;
use vstd::string::StringSliceAdditionalSpecFns;
use crate::text::{push_all, push_str, string_bytes, string_from_bytes, lemma_str_valid, lemma_cat, lemma_empty_valid};
use vstd::utf8::{decode_utf8, encode_utf8, valid_utf8};

verus! {

/// The color theme of a rendered page.
#[derive(Clone, Copy, Debug, PartialEq, Eq, Structural)]
pub enum Theme {
    Auto,
    Light,
    Dark,
}

/// Byte-wise lexicographic order, the order of `String`.
pub open spec fn lex_lt(a: Seq<u8>, b: Seq<u8>) -> bool
    decreases a.len(),
{
    if a.len() == 0 {
        b.len() > 0
    } else if b.len() == 0 {
        false
    } else if a[0] != b[0] {
        a[0] < b[0]
    } else {
        lex_lt(a.drop_first(), b.drop_first())
    }
}

proof fn lemma_lex_trans(a: Seq<u8>, b: Seq<u8>, c: Seq<u8>)
    requires
        lex_lt(a, b),
        lex_lt(b, c),
    ensures
        lex_lt(a, c),
    decreases a.len(),
{
    if a.len() > 0 && b.len() > 0 && c.len() > 0 && a[0] == b[0] && b[0] == c[0] {
        lemma_lex_trans(a.drop_first(), b.drop_first(), c.drop_first());
    }
}

proof fn lemma_lex_total(a: Seq<u8>, b: Seq<u8>)
    ensures
        a == b || lex_lt(a, b) || lex_lt(b, a),
    decreases a.len(),
{
    if a.len() > 0 && b.len() > 0 && a[0] == b[0] {
        lemma_lex_total(a.drop_first(), b.drop_first());
        if a.drop_first() == b.drop_first() {
            assert(a == seq![a[0]] + a.drop_first());
            assert(b == seq![b[0]] + b.drop_first());
        }
    }
}

proof fn lemma_lex_irrefl(a: Seq<u8>)
    ensures
        !lex_lt(a, a),
    decreases a.len(),
{
    if a.len() > 0 {
        lemma_lex_irrefl(a.drop_first());
    }
}

/// Whether `a` comes before `b` in byte-wise order.
pub fn bytes_lt(a: &[u8], b: &[u8]) -> (r: bool)
    ensures
        r == lex_lt(a@, b@),
{
    let mut i: usize = 0;
    proof {
        assert(a@.subrange(0, a@.len() as int) == a@);
        assert(b@.subrange(0, b@.len() as int) == b@);
    }
    while i < a.len() && i < b.len() && a[i] == b[i]
        invariant
            i <= a@.len(),
            i <= b@.len(),
            lex_lt(a@, b@) == lex_lt(a@.subrange(i as int, a@.len() as int), b@.subrange(i as int, b@.len() as int)),
        decreases a.len() - i,
    {
        proof {
            let sa = a@.subrange(i as int, a@.len() as int);
            let sb = b@.subrange(i as int, b@.len() as int);
            assert(sa.drop_first() == a@.subrange(i + 1, a@.len() as int));
            assert(sb.drop_first() == b@.subrange(i + 1, b@.len() as int));
        }
        i = i + 1;
    }
    proof {
        let sa = a@.subrange(i as int, a@.len() as int);
        let sb = b@.subrange(i as int, b@.len() as int);
        if i < a.len() && i < b.len() {
            assert(sa[0] == a@[i as int] && sb[0] == b@[i as int]);
        }
    }
    if i == a.len() {
        i < b.len()
    } else if i == b.len() {
        false
    } else {
        a[i] < b[i]
    }
}

/// The variables' keys by their bytes.
pub open spec fn key_bytes(e: (String, String)) -> Seq<u8> {
    encode_utf8(e.0@)
}

/// Keys in strictly increasing byte order (so each key once).
pub open spec fn vars_sorted(s: Seq<(String, String)>) -> bool {
    forall|i: int, j: int| 0 <= i < j < s.len() ==> lex_lt(key_bytes(#[trigger] s[i]), key_bytes(#[trigger] s[j]))
}

/// The value of the variable whose key has the bytes `k`.
pub open spec fn var_lookup(s: Seq<(String, String)>, k: Seq<u8>) -> Option<Seq<char>>
    decreases s.len(),
{
    if s.len() == 0 {
        None
    } else if key_bytes(s[0]) == k {
        Some(s[0].1@)
    } else {
        var_lookup(s.drop_first(), k)
    }
}

/// Renders HTML pages: the theme and custom CSS variables, kept in key order.
#[derive(Debug)]
pub struct Renderer {
    theme: Theme,
    custom_vars: Vec<(String, String)>,
}

impl Clone for Renderer {
    /// A copy with the same theme and variables.
    fn clone(&self) -> (r: Renderer)
        ensures
            r.spec_theme() == self.spec_theme(),
            r.spec_vars() == self.spec_vars(),
            vars_sorted(r.spec_vars()),
    {
        proof {
            use_type_invariant(self);
        }
        let mut vars: Vec<(String, String)> = Vec::new();
        let mut i: usize = 0;
        while i < self.custom_vars.len()
            invariant
                i <= self.custom_vars@.len(),
                vars@ == self.custom_vars@.take(i as int),
            decreases self.custom_vars.len() - i,
        {
            let (k, v) = &self.custom_vars[i];
            vars.push((k.clone(), v.clone()));
            proof {
                assert(self.custom_vars@.take(i + 1) == self.custom_vars@.take(i as int).push(self.custom_vars@[i as int]));
            }
            i = i + 1;
        }
        proof {
            assert(self.custom_vars@.take(self.custom_vars@.len() as int) == self.custom_vars@);
        }
        Renderer { theme: self.theme, custom_vars: vars }
    }
}

impl Renderer {
    pub closed spec fn spec_theme(&self) -> Theme {
        self.theme
    }

    /// The custom variables, in key order.
    pub closed spec fn spec_vars(&self) -> Seq<(String, String)> {
        self.custom_vars@
    }

    /// The custom variables stay in strictly increasing key order.
    #[verifier::type_invariant]
    spec fn sorted_keys(self) -> bool {
        vars_sorted(self.custom_vars@)
    }

    pub fn new(theme: Theme) -> (r: Renderer)
        ensures
            r.spec_theme() == theme,
            r.spec_vars().len() == 0,
            vars_sorted(r.spec_vars()),
    {
        Renderer { theme, custom_vars: Vec::new() }
    }

    /// The page theme.
    pub fn theme(&self) -> (t: Theme)
        ensures
            t == self.spec_theme(),
    {
        self.theme
    }

    /// Sets a custom CSS variable, replacing its earlier value.
    pub fn with_var(self, key: &str, value: &str) -> (r: Renderer)
        ensures
            r.spec_theme() == self.spec_theme(),
            var_lookup(r.spec_vars(), key.spec_bytes()) == Some(value@),
            forall|k: Seq<u8>| k != key.spec_bytes() ==> var_lookup(r.spec_vars(), k) == var_lookup(
                self.spec_vars(),
                k,
            ),
            vars_sorted(r.spec_vars()),
    {
        proof {
            use_type_invariant(&self);
        }
        let mut vars = self.custom_vars;
        let kb = key.as_bytes();
        let ghost old_vars = vars@;
        let mut i: usize = 0;
        while i < vars.len() && bytes_lt(string_bytes(&vars[i].0), kb)
            invariant
                i <= vars@.len(),
                vars@ == old_vars,
                vars_sorted(old_vars),
                forall|k: int| 0 <= k < i ==> lex_lt(key_bytes(#[trigger] old_vars[k]), kb@),
            decreases vars.len() - i,
        {
            i = i + 1;
        }
        let entry = (key.to_owned(), value.to_owned());
        if i < vars.len() && crate::text::bytes_eq(string_bytes(&vars[i].0), kb) {
            vars.set(i, entry);
            proof {
                lemma_lookup_update(old_vars, i as int, entry, kb@);
                assert(vars@ == old_vars.update(i as int, entry));
                assert forall|a: int, b: int| 0 <= a < b < vars@.len() implies lex_lt(
                    key_bytes(#[trigger] vars@[a]),
                    key_bytes(#[trigger] vars@[b]),
                ) by {
                    assert(lex_lt(key_bytes(old_vars[a]), key_bytes(old_vars[b])));
                }
                assert forall|k: Seq<u8>| k != kb@ implies var_lookup(vars@, k) == var_lookup(old_vars, k) by {
                    lemma_lookup_update_other(old_vars, i as int, entry, k);
                }
            }
        } else {
            vars.insert(i, entry);
            proof {
                if i < old_vars.len() {
                    lemma_lex_total(key_bytes(old_vars[i as int]), kb@);
                }
                lemma_lookup_insert(old_vars, i as int, entry, kb@);
                assert forall|a: int, b: int| 0 <= a < b < vars@.len() implies lex_lt(
                    key_bytes(#[trigger] vars@[a]),
                    key_bytes(#[trigger] vars@[b]),
                ) by {
                    if b < i {
                        assert(vars@[a] == old_vars[a] && vars@[b] == old_vars[b]);
                    } else if b == i {
                        assert(vars@[a] == old_vars[a]);
                    } else if a < i {
                        assert(vars@[a] == old_vars[a] && vars@[b] == old_vars[b - 1]);
                        assert(lex_lt(key_bytes(old_vars[i as int]), key_bytes(old_vars[b - 1])) || b - 1 == i);
                        lemma_lex_trans(key_bytes(old_vars[a]), kb@, key_bytes(old_vars[i as int]));
                        if b - 1 > i {
                            lemma_lex_trans(key_bytes(old_vars[a]), key_bytes(old_vars[i as int]), key_bytes(old_vars[b - 1]));
                        }
                    } else if a == i {
                        assert(vars@[b] == old_vars[b - 1]);
                        if b - 1 > i {
                            lemma_lex_trans(kb@, key_bytes(old_vars[i as int]), key_bytes(old_vars[b - 1]));
                        }
                    } else {
                        assert(vars@[a] == old_vars[a - 1] && vars@[b] == old_vars[b - 1]);
                    }
                }
            }
        }
        Renderer { theme: self.theme, custom_vars: vars }
    }

    /// The value of a custom variable.
    pub fn var(&self, key: &str) -> (r: Option<String>)
        ensures
            r matches Some(v) ==> var_lookup(self.spec_vars(), key.spec_bytes()) == Some(v@),
            r is None ==> var_lookup(self.spec_vars(), key.spec_bytes()) is None,
    {
        let mut i: usize = 0;
        proof {
            assert(self.custom_vars@.subrange(0, self.custom_vars@.len() as int) == self.custom_vars@);
        }
        while i < self.custom_vars.len()
            invariant
                i <= self.custom_vars@.len(),
                var_lookup(self.custom_vars@, key.spec_bytes()) == var_lookup(
                    self.custom_vars@.subrange(i as int, self.custom_vars@.len() as int),
                    key.spec_bytes(),
                ),
            decreases self.custom_vars.len() - i,
        {
            let ghost rest = self.custom_vars@.subrange(i as int, self.custom_vars@.len() as int);
            proof {
                assert(rest.drop_first() == self.custom_vars@.subrange(i + 1, self.custom_vars@.len() as int));
                assert(rest[0] == self.custom_vars@[i as int]);
            }
            if crate::text::bytes_eq(string_bytes(&self.custom_vars[i].0), key.as_bytes()) {
                return Some(self.custom_vars[i].1.clone());
            }
            i = i + 1;
        }
        None
    }
}

proof fn lemma_lookup_update(s: Seq<(String, String)>, i: int, e: (String, String), k: Seq<u8>)
    requires
        vars_sorted(s),
        0 <= i < s.len(),
        key_bytes(s[i]) == k,
        key_bytes(e) == k,
    ensures
        var_lookup(s.update(i, e), k) == Some(e.1@),
    decreases s.len(),
{
    if i > 0 {
        assert(lex_lt(key_bytes(s[0]), key_bytes(s[i])));
        lemma_lex_irrefl(k);
        assert(s.update(i, e).drop_first() == s.drop_first().update(i - 1, e));
        assert forall|a: int, b: int| 0 <= a < b < s.drop_first().len() implies lex_lt(
            key_bytes(#[trigger] s.drop_first()[a]),
            key_bytes(#[trigger] s.drop_first()[b]),
        ) by {
            assert(lex_lt(key_bytes(s[a + 1]), key_bytes(s[b + 1])));
        }
        lemma_lookup_update(s.drop_first(), i - 1, e, k);
    }
}

proof fn lemma_lookup_update_other(s: Seq<(String, String)>, i: int, e: (String, String), k: Seq<u8>)
    requires
        0 <= i < s.len(),
        key_bytes(s[i]) == key_bytes(e),
        key_bytes(e) != k,
    ensures
        var_lookup(s.update(i, e), k) == var_lookup(s, k),
    decreases s.len(),
{
    if i > 0 {
        assert(s.update(i, e).drop_first() == s.drop_first().update(i - 1, e));
        assert(s.update(i, e)[0] == s[0]);
        lemma_lookup_update_other(s.drop_first(), i - 1, e, k);
    } else {
        assert(s.update(0, e).drop_first() == s.drop_first());
    }
}

proof fn lemma_lookup_insert(s: Seq<(String, String)>, i: int, e: (String, String), k: Seq<u8>)
    requires
        0 <= i <= s.len(),
        key_bytes(e) == k,
        forall|j: int| 0 <= j < i ==> lex_lt(key_bytes(#[trigger] s[j]), k),
    ensures
        var_lookup(s.insert(i, e), k) == Some(e.1@),
        forall|q: Seq<u8>| q != k ==> var_lookup(s.insert(i, e), q) == var_lookup(s, q),
    decreases s.len(),
{
    if i > 0 {
        assert(s.insert(i, e).drop_first() == s.drop_first().insert(i - 1, e));
        assert(s.insert(i, e)[0] == s[0]);
        lemma_lex_irrefl(k);
        assert forall|j: int| 0 <= j < i - 1 implies lex_lt(key_bytes(#[trigger] s.drop_first()[j]), k) by {
            assert(s.drop_first()[j] == s[j + 1]);
        }
        lemma_lookup_insert(s.drop_first(), i - 1, e, k);
        assert forall|q: Seq<u8>| q != k implies var_lookup(s.insert(i, e), q) == var_lookup(s, q) by {
            assert(var_lookup(s.drop_first().insert(i - 1, e), q) == var_lookup(s.drop_first(), q));
        }
    } else {
        assert(s.insert(0, e).drop_first() == s);
        assert(s.insert(0, e)[0] == e);
    }
}

/// The tail of a list in key order is in key order.
proof fn lemma_sorted_tail(s: Seq<(String, String)>)
    requires
        vars_sorted(s),
        s.len() > 0,
    ensures
        vars_sorted(s.drop_first()),
{
    assert forall|a: int, b: int| 0 <= a < b < s.drop_first().len() implies lex_lt(
        key_bytes(#[trigger] s.drop_first()[a]),
        key_bytes(#[trigger] s.drop_first()[b]),
    ) by {
        assert(lex_lt(key_bytes(s[a + 1]), key_bytes(s[b + 1])));
    }
}

/// A key that the lookup finds stands at some place in the list, with the value found.
proof fn lemma_lookup_found(s: Seq<(String, String)>, k: Seq<u8>)
    ensures
        var_lookup(s, k) is Some ==> exists|j: int|
            0 <= j < s.len() && key_bytes(#[trigger] s[j]) == k && var_lookup(s, k) == Some(s[j].1@),
    decreases s.len(),
{
    if s.len() > 0 && key_bytes(s[0]) != k {
        lemma_lookup_found(s.drop_first(), k);
        if var_lookup(s, k) is Some {
            let j = choose|j: int|
                0 <= j < s.drop_first().len() && key_bytes(#[trigger] s.drop_first()[j]) == k
                    && var_lookup(s.drop_first(), k) == Some(s.drop_first()[j].1@);
            assert(s[j + 1] == s.drop_first()[j]);
        }
    }
}

/// A key that stands nowhere in the list is not found.
proof fn lemma_lookup_absent(s: Seq<(String, String)>, k: Seq<u8>)
    requires
        forall|j: int| 0 <= j < s.len() ==> key_bytes(#[trigger] s[j]) != k,
    ensures
        var_lookup(s, k) is None,
    decreases s.len(),
{
    if s.len() > 0 {
        assert forall|j: int| 0 <= j < s.drop_first().len() implies key_bytes(#[trigger] s.drop_first()[j])
            != k by {
            assert(s.drop_first()[j] == s[j + 1]);
        }
        lemma_lookup_absent(s.drop_first(), k);
    }
}

/// Two lists in key order that give every key the same value hold the same keys and values,
/// place by place.
proof fn lemma_same_entries(a: Seq<(String, String)>, b: Seq<(String, String)>)
    requires
        vars_sorted(a),
        vars_sorted(b),
        forall|k: Seq<u8>| #[trigger] var_lookup(a, k) == var_lookup(b, k),
    ensures
        a.len() == b.len(),
        forall|i: int|
            0 <= i < a.len() ==> key_bytes(#[trigger] a[i]) == key_bytes(b[i]) && a[i].1@ == b[i].1@,
    decreases a.len() + b.len(),
{
    if a.len() == 0 && b.len() > 0 {
        assert(var_lookup(b, key_bytes(b[0])) is Some);
        assert(var_lookup(a, key_bytes(b[0])) is None);
    } else if b.len() == 0 && a.len() > 0 {
        assert(var_lookup(a, key_bytes(a[0])) is Some);
        assert(var_lookup(b, key_bytes(a[0])) is None);
    } else if a.len() > 0 {
        let ka = key_bytes(a[0]);
        let kb = key_bytes(b[0]);
        assert(var_lookup(a, ka) == Some(a[0].1@));
        assert(var_lookup(b, kb) == Some(b[0].1@));
        lemma_lookup_found(b, ka);
        lemma_lookup_found(a, kb);
        let j = choose|j: int| 0 <= j < b.len() && key_bytes(#[trigger] b[j]) == ka && var_lookup(b, ka) == Some(b[j].1@);
        let i = choose|i: int| 0 <= i < a.len() && key_bytes(#[trigger] a[i]) == kb && var_lookup(a, kb) == Some(a[i].1@);
        if ka != kb {
            assert(j > 0 && i > 0);
            assert(lex_lt(kb, ka));
            assert(lex_lt(ka, kb));
            lemma_lex_trans(ka, kb, ka);
            lemma_lex_irrefl(ka);
        }
        assert(ka == kb);
        lemma_sorted_tail(a);
        lemma_sorted_tail(b);
        lemma_lex_irrefl(ka);
        assert forall|k: Seq<u8>| #[trigger] var_lookup(a.drop_first(), k) == var_lookup(b.drop_first(), k) by {
            if k == ka {
                assert forall|q: int| 0 <= q < a.drop_first().len() implies key_bytes(#[trigger] a.drop_first()[q])
                    != k by {
                    assert(a.drop_first()[q] == a[q + 1]);
                    assert(lex_lt(key_bytes(a[0]), key_bytes(a[q + 1])));
                }
                assert forall|q: int| 0 <= q < b.drop_first().len() implies key_bytes(#[trigger] b.drop_first()[q])
                    != k by {
                    assert(b.drop_first()[q] == b[q + 1]);
                    assert(lex_lt(key_bytes(b[0]), key_bytes(b[q + 1])));
                }
                lemma_lookup_absent(a.drop_first(), k);
                lemma_lookup_absent(b.drop_first(), k);
            } else {
                assert(var_lookup(a, k) == var_lookup(a.drop_first(), k));
                assert(var_lookup(b, k) == var_lookup(b.drop_first(), k));
            }
        }
        lemma_same_entries(a.drop_first(), b.drop_first());
        assert forall|q: int| 0 <= q < a.len() implies key_bytes(#[trigger] a[q]) == key_bytes(b[q]) && a[q].1@
            == b[q].1@ by {
            if q > 0 {
                assert(a[q] == a.drop_first()[q - 1]);
                assert(b[q] == b.drop_first()[q - 1]);
            }
        }
    }
}

/// Lists with the same keys and values place by place give the same custom lines.
proof fn lemma_custom_lines_same(a: Seq<(String, String)>, b: Seq<(String, String)>)
    requires
        a.len() == b.len(),
        forall|i: int|
            0 <= i < a.len() ==> key_bytes(#[trigger] a[i]) == key_bytes(b[i]) && a[i].1@ == b[i].1@,
    ensures
        custom_lines(a) == custom_lines(b),
    decreases a.len(),
{
    if a.len() > 0 {
        assert forall|i: int| 0 <= i < a.drop_last().len() implies key_bytes(#[trigger] a.drop_last()[i])
            == key_bytes(b.drop_last()[i]) && a.drop_last()[i].1@ == b.drop_last()[i].1@ by {
            assert(a.drop_last()[i] == a[i]);
            assert(b.drop_last()[i] == b[i]);
        }
        lemma_custom_lines_same(a.drop_last(), b.drop_last());
        assert(key_bytes(a.last()) == key_bytes(b.last()));
    }
}

/// The stylesheet depends on the custom variables only through the value each key has: two
/// renderers with the same theme whose variables give every key the same value have the same
/// stylesheet. So setting a variable again replaces it: after `with_var(k, v1)` and then
/// `with_var(k, v2)` the stylesheet is that of a single `with_var(k, v2)`.
pub proof fn law_stylesheet_follows_values(a: Renderer, b: Renderer)
    requires
        vars_sorted(a.spec_vars()),
        vars_sorted(b.spec_vars()),
        a.spec_theme() == b.spec_theme(),
        forall|k: Seq<u8>| var_lookup(a.spec_vars(), k) == var_lookup(b.spec_vars(), k),
    ensures
        stylesheet_spec(a.spec_theme(), a.spec_vars()) == stylesheet_spec(b.spec_theme(), b.spec_vars()),
{
    lemma_same_entries(a.spec_vars(), b.spec_vars());
    lemma_custom_lines_same(a.spec_vars(), b.spec_vars());
}

/// The base stylesheet of rendered pages.
pub const BASE_CSS: &'static str = "body {\n  margin: 0 auto;\n  max-width: var(--typmark-page-width, 48rem);\n  padding: 2rem 1.5rem;\n  background: var(--typmark-bg);\n  color: var(--typmark-fg);\n  font-family: var(--typmark-font, system-ui, sans-serif);\n  font-size: var(--typmark-font-size, 16px);\n  line-height: var(--typmark-line-height, 1.6);\n}\np {\n  margin: 0 0 var(--typmark-paragraph-gap, 1em);\n}\na {\n  color: var(--typmark-accent);\n}\nimg {\n  max-width: var(--typmark-image-max-width, 100%);\n}\ncode, pre {\n  font-family: var(--typmark-code-font, ui-monospace, monospace);\n  font-size: var(--typmark-code-size, 0.9em);\n}\npre {\n  background: var(--typmark-code-bg);\n  color: var(--typmark-code-fg);\n  padding: 0.75rem 1rem;\n  overflow-x: auto;\n}\n.TypMark-codeblock .line {\n  display: block;\n}\n.TypMark-codeblock .line.highlighted {\n  background: rgba(255, 215, 0, 0.18);\n}\n.TypMark-codeblock .line.diff.add {\n  background: rgba(46, 160, 67, 0.18);\n}\n.TypMark-codeblock .line.diff.del {\n  background: rgba(248, 81, 73, 0.18);\n}\n.TypMark-box {\n  background: var(--typmark-box-bg);\n  border: 1px solid var(--typmark-box-border);\n  border-radius: 6px;\n  margin: 1em 0;\n}\n.TypMark-box-title {\n  font-weight: 600;\n  padding: 0.5rem 1rem;\n  border-bottom: 1px solid var(--typmark-box-border);\n}\n.TypMark-box-body {\n  padding: 0.5rem 1rem;\n}\n.TypMark-math-block {\n  text-align: center;\n  overflow-x: auto;\n}\n.TypMark-math-block--error, .TypMark-math-inline--error, .ref-unresolved {\n  color: #c53030;\n}\nblockquote {\n  border-left: 4px solid var(--typmark-border);\n  color: var(--typmark-muted);\n  margin: 0;\n  padding-left: 1rem;\n}\ntable {\n  border-collapse: collapse;\n}\nth, td {\n  border: 1px solid var(--typmark-border);\n  padding: 0.25rem 0.5rem;\n}";

/// The base script of rendered pages: marks the document as scripted.
pub const BASE_JS: &'static str = "document.documentElement.classList.add(\"typmark-js\");";

/// The light and dark default variables, in key order.
pub open spec fn default_vars_spec(dark: bool) -> Seq<(&'static str, &'static str)> {
    if dark {
        seq![
            ("--typmark-accent", "#63b3ed"),
            ("--typmark-bg", "#0e1116"),
            ("--typmark-border", "#2a313b"),
            ("--typmark-box-bg", "#1b212b"),
            ("--typmark-box-border", "#2d3440"),
            ("--typmark-code-bg", "#202634"),
            ("--typmark-code-fg", "#f0f6fc"),
            ("--typmark-fg", "#e6edf3"),
            ("--typmark-muted", "#9aa4af"),
        ]
    } else {
        seq![
            ("--typmark-accent", "#2b6cb0"),
            ("--typmark-bg", "#fbfbf8"),
            ("--typmark-border", "#d8dee4"),
            ("--typmark-box-bg", "#f7f6f1"),
            ("--typmark-box-border", "#c9c2b8"),
            ("--typmark-code-bg", "#f4f6f8"),
            ("--typmark-code-fg", "#1f2328"),
            ("--typmark-fg", "#1f2328"),
            ("--typmark-muted", "#5f6b76"),
        ]
    }
}

fn default_theme_vars(dark: bool) -> (r: Vec<(&'static str, &'static str)>)
    ensures
        r@ == default_vars_spec(dark),
{
    if dark {
        vec![
            ("--typmark-accent", "#63b3ed"),
            ("--typmark-bg", "#0e1116"),
            ("--typmark-border", "#2a313b"),
            ("--typmark-box-bg", "#1b212b"),
            ("--typmark-box-border", "#2d3440"),
            ("--typmark-code-bg", "#202634"),
            ("--typmark-code-fg", "#f0f6fc"),
            ("--typmark-fg", "#e6edf3"),
            ("--typmark-muted", "#9aa4af"),
        ]
    } else {
        vec![
            ("--typmark-accent", "#2b6cb0"),
            ("--typmark-bg", "#fbfbf8"),
            ("--typmark-border", "#d8dee4"),
            ("--typmark-box-bg", "#f7f6f1"),
            ("--typmark-box-border", "#c9c2b8"),
            ("--typmark-code-bg", "#f4f6f8"),
            ("--typmark-code-fg", "#1f2328"),
            ("--typmark-fg", "#1f2328"),
            ("--typmark-muted", "#5f6b76"),
        ]
    }
}

/// `key: value;` lines, indented by two spaces (four when nested).
pub open spec fn var_lines(pairs: Seq<(&'static str, &'static str)>, nested: bool) -> Seq<u8>
    decreases pairs.len(),
{
    if pairs.len() == 0 {
        Seq::empty()
    } else {
        var_lines(pairs.drop_last(), nested) + (if nested { "    ".spec_bytes() } else { "  ".spec_bytes() })
            + pairs.last().0.spec_bytes() + ": ".spec_bytes() + pairs.last().1.spec_bytes() + ";\n".spec_bytes()
    }
}

/// A `:root` block of variables, with a `color-scheme` line when asked.
pub open spec fn root_block(pairs: Seq<(&'static str, &'static str)>, nested: bool) -> Seq<u8> {
    (if nested { "  :root {\n".spec_bytes() } else { ":root {\n".spec_bytes() }) + (if nested {
        "    color-scheme: light dark;\n".spec_bytes()
    } else {
        "  color-scheme: light dark;\n".spec_bytes()
    }) + var_lines(pairs, nested) + (if nested { "  }\n".spec_bytes() } else { "}\n".spec_bytes() })
}

/// The custom variables' lines.
pub open spec fn custom_lines(vars: Seq<(String, String)>) -> Seq<u8>
    decreases vars.len(),
{
    if vars.len() == 0 {
        Seq::empty()
    } else {
        custom_lines(vars.drop_last()) + "  ".spec_bytes() + encode_utf8(vars.last().0@) + ": ".spec_bytes()
            + encode_utf8(vars.last().1@) + ";\n".spec_bytes()
    }
}

/// The stylesheet of a theme and custom variables: the theme's variables (light, then dark for
/// a reader who prefers it, for `Auto`), the custom variables in key order, the base
/// stylesheet.
pub open spec fn stylesheet_spec(theme: Theme, vars: Seq<(String, String)>) -> Seq<u8> {
    (match theme {
        Theme::Auto => root_block(default_vars_spec(false), false) + "@media (prefers-color-scheme: dark) {\n".spec_bytes()
            + root_block(default_vars_spec(true), true) + "}\n".spec_bytes(),
        Theme::Light => root_block(default_vars_spec(false), false),
        Theme::Dark => root_block(default_vars_spec(true), false),
    }) + (if vars.len() > 0 {
        ":root {\n".spec_bytes() + custom_lines(vars) + "}\n".spec_bytes()
    } else {
        Seq::empty()
    }) + BASE_CSS.spec_bytes()
}

/// Appends a `:root` block of variables.
fn push_root_block(out: &mut Vec<u8>, pairs: &[(&'static str, &'static str)], nested: bool)
    ensures
        final(out)@ == old(out)@ + root_block(pairs@, nested),
{
    if nested {
        push_str(out, "  :root {\n");
        push_str(out, "    color-scheme: light dark;\n");
    } else {
        push_str(out, ":root {\n");
        push_str(out, "  color-scheme: light dark;\n");
    }
    let ghost head = out@;
    let mut i: usize = 0;
    while i < pairs.len()
        invariant
            i <= pairs@.len(),
            out@ == head + var_lines(pairs@.take(i as int), nested),
        decreases pairs.len() - i,
    {
        proof {
            assert(pairs@.take(i + 1).drop_last() == pairs@.take(i as int));
        }
        if nested {
            push_str(out, "    ");
        } else {
            push_str(out, "  ");
        }
        push_str(out, pairs[i].0);
        push_str(out, ": ");
        push_str(out, pairs[i].1);
        push_str(out, ";\n");
        i = i + 1;
    }
    proof {
        assert(pairs@.take(pairs@.len() as int) == pairs@);
    }
    if nested {
        push_str(out, "  }\n");
    } else {
        push_str(out, "}\n");
    }
}

/// The start of a page, up to the viewport meta element.
pub open spec fn page_head() -> Seq<u8> {
    "<!DOCTYPE html>\n<html lang=\"en\">\n<head>\n  <meta charset=\"utf-8\" />\n  <meta name=\"viewport\" content=\"width=device-width, initial-scale=1\" />\n".spec_bytes()
}

/// A `<base>` element for a base URL.
pub open spec fn base_part(base: Option<Seq<u8>>) -> Seq<u8> {
    match base {
        Some(b) => "  <base href=\"".spec_bytes() + crate::emit::escaped(b) + "\" />\n".spec_bytes(),
        None => Seq::empty(),
    }
}

/// A style element holding the stylesheet and the extra CSS, when there is either.
pub open spec fn style_part(css: Option<Seq<u8>>, extra: Option<Seq<u8>>) -> Seq<u8> {
    if css is Some || extra is Some {
        "  <style>\n".spec_bytes() + (match css {
            Some(c) => c,
            None => Seq::empty(),
        }) + (match extra {
            Some(e) => "\n".spec_bytes() + e,
            None => Seq::empty(),
        }) + "\n  </style>\n".spec_bytes()
    } else {
        Seq::empty()
    }
}

/// The fragment in the body, ending in a newline.
pub open spec fn body_part(html: Seq<u8>) -> Seq<u8> {
    "</head>\n<body>\n".spec_bytes() + html + (if html.len() == 0 || html.last() != 10u8 {
        "\n".spec_bytes()
    } else {
        Seq::empty()
    })
}

/// The base script element, when asked.
pub open spec fn script_part(js: bool) -> Seq<u8> {
    if js {
        "  <script>\n".spec_bytes() + BASE_JS.spec_bytes() + "\n  </script>\n".spec_bytes()
    } else {
        Seq::empty()
    }
}

/// A complete page around an HTML fragment: the head (with a `<base>` for a base URL and a
/// style element for the stylesheet and extra CSS), the fragment ending in a newline, and the
/// base script when asked.
pub open spec fn embed_page(
    html: Seq<u8>,
    css: Option<Seq<u8>>,
    js: bool,
    base: Option<Seq<u8>>,
    extra: Option<Seq<u8>>,
) -> Seq<u8> {
    page_head() + base_part(base) + style_part(css, extra) + body_part(html) + script_part(js)
        + "</body>\n</html>\n".spec_bytes()
}

fn push_style_part(out: &mut Vec<u8>, css: Option<&[u8]>, extra: Option<&str>)
    ensures
        final(out)@ == old(out)@ + style_part(
            match css {
                Some(c) => Some(c@),
                None => None,
            },
            match extra {
                Some(e) => Some(e.spec_bytes()),
                None => None,
            },
        ),
{
    if css.is_some() || extra.is_some() {
        let ghost o = out@;
        push_str(out, "  <style>\n");
        let ghost o1 = out@;
        if let Some(c) = css {
            push_all(out, c);
        }
        let ghost o2 = out@;
        if let Some(e) = extra {
            push_str(out, "\n");
            push_str(out, e);
        }
        let ghost o3 = out@;
        push_str(out, "\n  </style>\n");
        proof {
            assert(out@ =~= o + style_part(
                match css {
                    Some(c) => Some(c@),
                    None => None,
                },
                match extra {
                    Some(e) => Some(e.spec_bytes()),
                    None => None,
                },
            ));
        }
    }
}

fn push_body_part(out: &mut Vec<u8>, html: &str)
    ensures
        final(out)@ == old(out)@ + body_part(html.spec_bytes()),
{
    let ghost o = out@;
    push_str(out, "</head>\n<body>\n");
    push_str(out, html);
    let hb = html.as_bytes();
    if hb.len() == 0 || hb[hb.len() - 1] != 10u8 {
        push_str(out, "\n");
    }
    proof {
        assert(out@ =~= o + body_part(html.spec_bytes()));
    }
}

fn push_script_part(out: &mut Vec<u8>, js: bool)
    ensures
        final(out)@ == old(out)@ + script_part(js),
{
    if js {
        let ghost o = out@;
        push_str(out, "  <script>\n");
        push_str(out, BASE_JS);
        push_str(out, "\n  </script>\n");
        proof {
            assert(out@ =~= o + script_part(js));
        }
    }
}

fn push_base_part(out: &mut Vec<u8>, base: Option<&str>)
    ensures
        final(out)@ == old(out)@ + base_part(
            match base {
                Some(b) => Some(b.spec_bytes()),
                None => None,
            },
        ),
{
    if let Some(b) = base {
        let ghost o = out@;
        push_str(out, "  <base href=\"");
        crate::emit::push_escaped(out, b.as_bytes());
        push_str(out, "\" />\n");
        proof {
            assert(out@ =~= o + base_part(Some(b.spec_bytes())));
        }
    }
}

impl Renderer {
    /// The page stylesheet as bytes.
    pub fn stylesheet_bytes(&self) -> (r: Vec<u8>)
        ensures
            r@ == stylesheet_spec(self.spec_theme(), self.spec_vars()),
    {
        let mut out: Vec<u8> = Vec::new();
        let light = default_theme_vars(false);
        let dark = default_theme_vars(true);
        match self.theme {
            Theme::Auto => {
                push_root_block(&mut out, light.as_slice(), false);
                push_str(&mut out, "@media (prefers-color-scheme: dark) {\n");
                push_root_block(&mut out, dark.as_slice(), true);
                push_str(&mut out, "}\n");
            },
            Theme::Light => {
                push_root_block(&mut out, light.as_slice(), false);
            },
            Theme::Dark => {
                push_root_block(&mut out, dark.as_slice(), false);
            },
        }
        let ghost themed = out@;
        if self.custom_vars.len() > 0 {
            push_str(&mut out, ":root {\n");
            let ghost head = out@;
            let mut i: usize = 0;
            while i < self.custom_vars.len()
                invariant
                    i <= self.custom_vars@.len(),
                    out@ == head + custom_lines(self.custom_vars@.take(i as int)),
                decreases self.custom_vars.len() - i,
            {
                proof {
                    assert(self.custom_vars@.take(i + 1).drop_last() == self.custom_vars@.take(i as int));
                }
                push_str(&mut out, "  ");
                push_all(&mut out, string_bytes(&self.custom_vars[i].0));
                push_str(&mut out, ": ");
                push_all(&mut out, string_bytes(&self.custom_vars[i].1));
                push_str(&mut out, ";\n");
                i = i + 1;
            }
            proof {
                assert(self.custom_vars@.take(self.custom_vars@.len() as int) == self.custom_vars@);
            }
            push_str(&mut out, "}\n");
        }
        push_str(&mut out, BASE_CSS);
        out
    }

    /// The page stylesheet.
    pub fn stylesheet(&self) -> (r: String)
        ensures
            r@ == decode_utf8(stylesheet_spec(self.spec_theme(), self.spec_vars())),
    {
        proof {
            lemma_stylesheet_valid(self.spec_theme(), self.spec_vars());
        }
        string_from_bytes(self.stylesheet_bytes().as_slice())
    }

    /// A complete HTML page around an HTML fragment, as bytes: the stylesheet (and extra CSS)
    /// inline when asked, a `<base>` when a base URL is given, the base script inline when
    /// asked.
    pub fn embed_html_bytes(
        &self,
        html: &str,
        with_inline_css: bool,
        with_inline_js: bool,
        base_url: Option<&str>,
        extra_css: Option<&str>,
    ) -> (r: Vec<u8>)
        ensures
            r@ == embed_page(
                html.spec_bytes(),
                if with_inline_css { Some(stylesheet_spec(self.spec_theme(), self.spec_vars())) } else { None },
                with_inline_js,
                match base_url {
                    Some(b) => Some(b.spec_bytes()),
                    None => None,
                },
                match extra_css {
                    Some(c) => Some(c.spec_bytes()),
                    None => None,
                },
            ),
    {
        let mut out: Vec<u8> = Vec::new();
        push_str(&mut out, "<!DOCTYPE html>\n<html lang=\"en\">\n<head>\n  <meta charset=\"utf-8\" />\n  <meta name=\"viewport\" content=\"width=device-width, initial-scale=1\" />\n");
        let ghost o0 = out@;
        push_base_part(&mut out, base_url);
        let ghost o1 = out@;
        if with_inline_css {
            let css = self.stylesheet_bytes();
            push_style_part(&mut out, Some(css.as_slice()), extra_css);
        } else {
            push_style_part(&mut out, None, extra_css);
        }
        let ghost o2 = out@;
        push_body_part(&mut out, html);
        let ghost o3 = out@;
        push_script_part(&mut out, with_inline_js);
        let ghost o4 = out@;
        push_str(&mut out, "</body>\n</html>\n");
        proof {
            assert(o0 == page_head());
        }
        out
    }

    /// A complete HTML page around an HTML fragment.
    pub fn embed_html(&self, html: &str, with_inline_css: bool, with_inline_js: bool) -> (r: String)
        ensures
            r@ == decode_utf8(
                embed_page(
                    html.spec_bytes(),
                    if with_inline_css { Some(stylesheet_spec(self.spec_theme(), self.spec_vars())) } else { None },
                    with_inline_js,
                    None,
                    None,
                ),
            ),
    {
        proof {
            lemma_stylesheet_valid(self.spec_theme(), self.spec_vars());
            vstd::utf8::encode_utf8_valid_utf8(html@);
            lemma_page_valid(
                html.spec_bytes(),
                if with_inline_css { Some(stylesheet_spec(self.spec_theme(), self.spec_vars())) } else { None },
                with_inline_js,
                None,
                None,
            );
        }
        string_from_bytes(self.embed_html_bytes(html, with_inline_css, with_inline_js, None, None).as_slice())
    }

    /// A complete HTML page with a base URL for relative links and extra CSS after the
    /// stylesheet.
    pub fn embed_html_with_base_and_css(
        &self,
        html: &str,
        with_inline_css: bool,
        with_inline_js: bool,
        base_url: Option<&str>,
        extra_css: Option<&str>,
    ) -> (r: String)
        ensures
            ({
                let page = embed_page(
                    html.spec_bytes(),
                    if with_inline_css { Some(stylesheet_spec(self.spec_theme(), self.spec_vars())) } else { None },
                    with_inline_js,
                    match base_url {
                        Some(b) => Some(b.spec_bytes()),
                        None => None,
                    },
                    match extra_css {
                        Some(c) => Some(c.spec_bytes()),
                        None => None,
                    },
                );
                r@ == decode_utf8(page)
            }),
    {
        proof {
            lemma_str_valid(html);
            lemma_stylesheet_valid(self.spec_theme(), self.spec_vars());
            match base_url {
                Some(b) => lemma_str_valid(b),
                None => {},
            }
            match extra_css {
                Some(c) => lemma_str_valid(c),
                None => {},
            }
            lemma_page_valid(
                html.spec_bytes(),
                if with_inline_css { Some(stylesheet_spec(self.spec_theme(), self.spec_vars())) } else { None },
                with_inline_js,
                match base_url {
                    Some(b) => Some(b.spec_bytes()),
                    None => None,
                },
                match extra_css {
                    Some(c) => Some(c.spec_bytes()),
                    None => None,
                },
            );
        }
        string_from_bytes(
            self.embed_html_bytes(html, with_inline_css, with_inline_js, base_url, extra_css).as_slice(),
        )
    }
}


proof fn lemma_var_lines_valid(pairs: Seq<(&'static str, &'static str)>, nested: bool)
    ensures
        valid_utf8(var_lines(pairs, nested)),
    decreases pairs.len(),
{
    if pairs.len() > 0 {
        lemma_var_lines_valid(pairs.drop_last(), nested);
        let prev = var_lines(pairs.drop_last(), nested);
        let ind = if nested { "    ".spec_bytes() } else { "  ".spec_bytes() };
        lemma_str_valid("    ");
        lemma_str_valid("  ");
        lemma_str_valid(pairs.last().0);
        lemma_str_valid(": ");
        lemma_str_valid(pairs.last().1);
        lemma_str_valid(";\n");
        lemma_cat(prev, ind);
        lemma_cat(prev + ind, pairs.last().0.spec_bytes());
        lemma_cat(prev + ind + pairs.last().0.spec_bytes(), ": ".spec_bytes());
        lemma_cat(prev + ind + pairs.last().0.spec_bytes() + ": ".spec_bytes(), pairs.last().1.spec_bytes());
        lemma_cat(
            prev + ind + pairs.last().0.spec_bytes() + ": ".spec_bytes() + pairs.last().1.spec_bytes(),
            ";\n".spec_bytes(),
        );
    } else {
        lemma_empty_valid();
    }
}

proof fn lemma_custom_lines_valid(vars: Seq<(String, String)>)
    ensures
        valid_utf8(custom_lines(vars)),
    decreases vars.len(),
{
    if vars.len() > 0 {
        lemma_custom_lines_valid(vars.drop_last());
        let prev = custom_lines(vars.drop_last());
        let k = encode_utf8(vars.last().0@);
        let v = encode_utf8(vars.last().1@);
        vstd::utf8::encode_utf8_valid_utf8(vars.last().0@);
        vstd::utf8::encode_utf8_valid_utf8(vars.last().1@);
        lemma_str_valid("  ");
        lemma_str_valid(": ");
        lemma_str_valid(";\n");
        lemma_cat(prev, "  ".spec_bytes());
        lemma_cat(prev + "  ".spec_bytes(), k);
        lemma_cat(prev + "  ".spec_bytes() + k, ": ".spec_bytes());
        lemma_cat(prev + "  ".spec_bytes() + k + ": ".spec_bytes(), v);
        lemma_cat(prev + "  ".spec_bytes() + k + ": ".spec_bytes() + v, ";\n".spec_bytes());
    } else {
        lemma_empty_valid();
    }
}

proof fn lemma_root_block_valid(pairs: Seq<(&'static str, &'static str)>, nested: bool)
    ensures
        valid_utf8(root_block(pairs, nested)),
{
    let a = if nested { "  :root {\n".spec_bytes() } else { ":root {\n".spec_bytes() };
    let b = if nested { "    color-scheme: light dark;\n".spec_bytes() } else { "  color-scheme: light dark;\n".spec_bytes() };
    let c = var_lines(pairs, nested);
    let d = if nested { "  }\n".spec_bytes() } else { "}\n".spec_bytes() };
    lemma_str_valid("  :root {\n");
    lemma_str_valid(":root {\n");
    lemma_str_valid("    color-scheme: light dark;\n");
    lemma_str_valid("  color-scheme: light dark;\n");
    lemma_str_valid("  }\n");
    lemma_str_valid("}\n");
    lemma_var_lines_valid(pairs, nested);
    lemma_cat(a, b);
    lemma_cat(a + b, c);
    lemma_cat(a + b + c, d);
}

/// The stylesheet is UTF-8.
proof fn lemma_stylesheet_valid(theme: Theme, vars: Seq<(String, String)>)
    ensures
        valid_utf8(stylesheet_spec(theme, vars)),
{
    let light = root_block(default_vars_spec(false), false);
    let dark = root_block(default_vars_spec(true), false);
    let nested = root_block(default_vars_spec(true), true);
    lemma_root_block_valid(default_vars_spec(false), false);
    lemma_root_block_valid(default_vars_spec(true), false);
    lemma_root_block_valid(default_vars_spec(true), true);
    lemma_str_valid("@media (prefers-color-scheme: dark) {\n");
    lemma_str_valid("}\n");
    lemma_str_valid(":root {\n");
    lemma_str_valid(BASE_CSS);
    let media = "@media (prefers-color-scheme: dark) {\n".spec_bytes();
    lemma_cat(light, media);
    lemma_cat(light + media, nested);
    lemma_cat(light + media + nested, "}\n".spec_bytes());
    let head = match theme {
        Theme::Auto => light + media + nested + "}\n".spec_bytes(),
        Theme::Light => light,
        Theme::Dark => dark,
    };
    assert(valid_utf8(head));
    let custom = if vars.len() > 0 {
        ":root {\n".spec_bytes() + custom_lines(vars) + "}\n".spec_bytes()
    } else {
        Seq::empty()
    };
    lemma_custom_lines_valid(vars);
    lemma_cat(":root {\n".spec_bytes(), custom_lines(vars));
    lemma_cat(":root {\n".spec_bytes() + custom_lines(vars), "}\n".spec_bytes());
    lemma_empty_valid();
    assert(valid_utf8(custom));
    lemma_cat(head, custom);
    lemma_cat(head + custom, BASE_CSS.spec_bytes());
    assert(stylesheet_spec(theme, vars) == head + custom + BASE_CSS.spec_bytes());
}

/// A page around UTF-8 HTML, CSS, base URL and extra CSS is UTF-8.
proof fn lemma_page_valid(html: Seq<u8>, css: Option<Seq<u8>>, js: bool, base: Option<Seq<u8>>, extra: Option<Seq<u8>>)
    requires
        valid_utf8(html),
        css matches Some(c) ==> valid_utf8(c),
        base matches Some(b) ==> valid_utf8(b),
        extra matches Some(e) ==> valid_utf8(e),
    ensures
        valid_utf8(embed_page(html, css, js, base, extra)),
{
    lemma_empty_valid();
    lemma_str_valid("  <style>\n");
    lemma_str_valid("\n  </style>\n");
    lemma_str_valid("</head>\n<body>\n");
    lemma_str_valid("\n");
    lemma_str_valid("  <script>\n");
    lemma_str_valid(BASE_JS);
    lemma_str_valid("\n  </script>\n");
    lemma_str_valid("</body>\n</html>\n");
    lemma_str_valid("  <base href=\"");
    lemma_str_valid("\" />\n");
    lemma_str_valid("<!DOCTYPE html>\n<html lang=\"en\">\n<head>\n  <meta charset=\"utf-8\" />\n  <meta name=\"viewport\" content=\"width=device-width, initial-scale=1\" />\n");
    match base {
        Some(b) => {
            crate::utf8_text::lemma_escaped_valid(b);
            lemma_cat("  <base href=\"".spec_bytes(), crate::emit::escaped(b));
            lemma_cat("  <base href=\"".spec_bytes() + crate::emit::escaped(b), "\" />\n".spec_bytes());
        },
        None => {},
    }
    assert(valid_utf8(base_part(base)));
    let c = match css {
        Some(c) => c,
        None => Seq::empty(),
    };
    let e = match extra {
        Some(e) => "\n".spec_bytes() + e,
        None => Seq::empty(),
    };
    match extra {
        Some(x) => lemma_cat("\n".spec_bytes(), x),
        None => {},
    }
    lemma_cat("  <style>\n".spec_bytes(), c);
    lemma_cat("  <style>\n".spec_bytes() + c, e);
    lemma_cat("  <style>\n".spec_bytes() + c + e, "\n  </style>\n".spec_bytes());
    assert(valid_utf8(style_part(css, extra)));
    let nl = if html.len() == 0 || html.last() != 10u8 { "\n".spec_bytes() } else { Seq::empty() };
    lemma_cat("</head>\n<body>\n".spec_bytes(), html);
    lemma_cat("</head>\n<body>\n".spec_bytes() + html, nl);
    assert(valid_utf8(body_part(html)));
    lemma_cat("  <script>\n".spec_bytes(), BASE_JS.spec_bytes());
    lemma_cat("  <script>\n".spec_bytes() + BASE_JS.spec_bytes(), "\n  </script>\n".spec_bytes());
    assert(valid_utf8(script_part(js)));
    let p0 = page_head();
    lemma_cat(p0, base_part(base));
    lemma_cat(p0 + base_part(base), style_part(css, extra));
    lemma_cat(p0 + base_part(base) + style_part(css, extra), body_part(html));
    lemma_cat(p0 + base_part(base) + style_part(css, extra) + body_part(html), script_part(js));
    lemma_cat(
        p0 + base_part(base) + style_part(css, extra) + body_part(html) + script_part(js),
        "</body>\n</html>\n".spec_bytes(),
    );
}

} // verus!
