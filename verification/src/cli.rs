use vstd::prelude::*;
use vstd::string::StringSliceAdditionalSpecFns;
use crate::ast::{AttrItem, AttrList};
use crate::math::MathSettings;
use vstd::utf8::{decode_utf8, encode_utf8, valid_utf8};
use crate::utf8_text::{ascii, lemma_valid_cat3, lemma_valid_cat4, lemma_valid_cat5};
use crate::diagnostic::{Diagnostic, DiagnosticSeverity, RelatedDiagnostic};
use crate::source_map::Position;
use crate::emit::{decimal, push_decimal};
use crate::pdf::{PdfBackend, PdfMargin};
use crate::renderer::{var_lookup, Renderer};
use crate::text::{
    bytes_eq, copy_range, lossy_decode, ws_len_at, push_all, push_str, string_bytes, string_from_bytes, trim_range, trimmed,
    unicode_ws_at, lemma_ascii_valid, lemma_cat, lemma_empty_valid, lemma_str_valid,
};

verus! {

/// The JSON escape of one byte: `"`, `\`, newline, carriage return and tab get a backslash.
pub open spec fn json_escape_byte(b: u8) -> Seq<u8> {
    if b == 34u8 {
        seq![92u8, 34u8]
    } else if b == 92u8 {
        seq![92u8, 92u8]
    } else if b == 10u8 {
        seq![92u8, 110u8]
    } else if b == 13u8 {
        seq![92u8, 114u8]
    } else if b == 9u8 {
        seq![92u8, 116u8]
    } else {
        seq![b]
    }
}

pub open spec fn json_escaped(s: Seq<u8>) -> Seq<u8>
    decreases s.len(),
{
    if s.len() == 0 {
        Seq::empty()
    } else {
        json_escaped(s.drop_last()) + json_escape_byte(s.last())
    }
}

/// Appends the JSON string escape of the bytes.
pub fn push_json_escaped(out: &mut Vec<u8>, s: &[u8])
    ensures
        final(out)@ == old(out)@ + json_escaped(s@),
{
    let ghost base = out@;
    let mut i: usize = 0;
    while i < s.len()
        invariant
            i <= s@.len(),
            out@ == base + json_escaped(s@.take(i as int)),
        decreases s.len() - i,
    {
        proof {
            assert(s@.take(i + 1).drop_last() == s@.take(i as int));
        }
        let b = s[i];
        if b == 34u8 {
            out.push(92u8);
            out.push(34u8);
        } else if b == 92u8 {
            out.push(92u8);
            out.push(92u8);
        } else if b == 10u8 {
            out.push(92u8);
            out.push(110u8);
        } else if b == 13u8 {
            out.push(92u8);
            out.push(114u8);
        } else if b == 9u8 {
            out.push(92u8);
            out.push(116u8);
        } else {
            out.push(b);
        }
        i = i + 1;
    }
    proof {
        assert(s@.take(s@.len() as int) == s@);
    }
}

/// A string escaped for a JSON string literal.
pub fn escape_json(value: &str) -> (r: Vec<u8>)
    ensures
        r@ == json_escaped(value.spec_bytes()),
{
    let mut out: Vec<u8> = Vec::new();
    push_json_escaped(&mut out, value.as_bytes());
    out
}

/// The name of a severity.
pub fn severity_label(severity: DiagnosticSeverity) -> (r: &'static str)
    ensures
        severity == DiagnosticSeverity::Error ==> r == "error",
        severity == DiagnosticSeverity::Warning ==> r == "warning",
{
    match severity {
        DiagnosticSeverity::Error => "error",
        DiagnosticSeverity::Warning => "warning",
    }
}

/// One more, except at the largest `u64`.
pub open spec fn plus_one(n: usize) -> nat {
    if n as nat >= u64::MAX as nat {
        u64::MAX as nat
    } else {
        (n + 1) as nat
    }
}

/// `line:column:severity code message`, with the line and column counted from one.
pub open spec fn pretty_spec(d: Diagnostic) -> Seq<u8> {
    decimal(plus_one(d.range.start.line)) + ":".spec_bytes() + decimal(plus_one(d.range.start.character))
        + ":".spec_bytes() + (match d.severity {
        DiagnosticSeverity::Error => "error".spec_bytes(),
        DiagnosticSeverity::Warning => "warning".spec_bytes(),
    }) + " ".spec_bytes() + d.code.spec_bytes() + " ".spec_bytes() + encode_utf8(d.message@)
}

proof fn lemma_decimal_ascii(n: nat)
    ensures
        forall|k: int| 0 <= k < decimal(n).len() ==> decimal(n)[k] < 128,
    decreases n,
{
    if n >= 10 {
        lemma_decimal_ascii(n / 10);
        let d = (48 + n % 10) as u8;
        assert(d < 128);
        assert(decimal(n) == decimal(n / 10).push(d));
    } else {
        let d = (48 + n) as u8;
        assert(d < 128);
        assert(decimal(n) == seq![d]);
    }
}

/// `line:column:severity code message`, with the line and column counted from one.
pub fn diagnostic_to_pretty(diagnostic: &Diagnostic) -> (r: String)
    ensures
        r@ == decode_utf8(pretty_spec(*diagnostic)),
{
    let mut out: Vec<u8> = Vec::new();
    push_decimal(&mut out, (diagnostic.range.start.line as u64).saturating_add(1));
    push_str(&mut out, ":");
    push_decimal(&mut out, (diagnostic.range.start.character as u64).saturating_add(1));
    push_str(&mut out, ":");
    push_str(&mut out, severity_label(diagnostic.severity));
    push_str(&mut out, " ");
    push_str(&mut out, diagnostic.code);
    push_str(&mut out, " ");
    push_all(&mut out, string_bytes(&diagnostic.message));
    proof {
        let d = *diagnostic;
        let l = decimal(plus_one(d.range.start.line));
        let c = decimal(plus_one(d.range.start.character));
        let sev = match d.severity {
            DiagnosticSeverity::Error => "error".spec_bytes(),
            DiagnosticSeverity::Warning => "warning".spec_bytes(),
        };
        assert(out@ =~= pretty_spec(d));
        lemma_decimal_ascii(plus_one(d.range.start.line));
        lemma_decimal_ascii(plus_one(d.range.start.character));
        lemma_ascii_valid(l);
        lemma_ascii_valid(c);
        lemma_str_valid(":");
        lemma_str_valid(" ");
        lemma_str_valid("error");
        lemma_str_valid("warning");
        lemma_str_valid(d.code);
        vstd::utf8::encode_utf8_valid_utf8(d.message@);
        lemma_cat(l, ":".spec_bytes());
        lemma_cat(l + ":".spec_bytes(), c);
        lemma_cat(l + ":".spec_bytes() + c, ":".spec_bytes());
        lemma_cat(l + ":".spec_bytes() + c + ":".spec_bytes(), sev);
        lemma_cat(l + ":".spec_bytes() + c + ":".spec_bytes() + sev, " ".spec_bytes());
        lemma_cat(l + ":".spec_bytes() + c + ":".spec_bytes() + sev + " ".spec_bytes(), d.code.spec_bytes());
        lemma_cat(
            l + ":".spec_bytes() + c + ":".spec_bytes() + sev + " ".spec_bytes() + d.code.spec_bytes(),
            " ".spec_bytes(),
        );
        lemma_cat(
            l + ":".spec_bytes() + c + ":".spec_bytes() + sev + " ".spec_bytes() + d.code.spec_bytes() + " ".spec_bytes(),
            encode_utf8(d.message@),
        );
    }
    string_from_bytes(out.as_slice())
}

/// `{ "line": l, "character": c }`.
pub open spec fn position_json(p: Position) -> Seq<u8> {
    "{ \"line\": ".spec_bytes() + decimal(p.line as nat) + ", \"character\": ".spec_bytes() + decimal(p.character as nat)
        + " }".spec_bytes()
}

/// A related location as a JSON object.
pub open spec fn related_json(r: RelatedDiagnostic) -> Seq<u8> {
    "      {\n        \"range\": {\n          \"start\": ".spec_bytes() + position_json(r.range.start)
        + ",\n          \"end\": ".spec_bytes() + position_json(r.range.end) + "\n        }".spec_bytes() + (
    match r.message {
        Some(m) => ",\n        \"message\": \"".spec_bytes() + json_escaped(encode_utf8(m@)) + "\"\n      }".spec_bytes(),
        None => "\n      }".spec_bytes(),
    })
}

/// The first `n` related locations, each followed by a comma and a line end, the last by a
/// line end.
pub open spec fn related_items(rs: Seq<RelatedDiagnostic>, n: nat) -> Seq<u8>
    decreases n,
{
    if n == 0 || n > rs.len() {
        Seq::empty()
    } else {
        related_items(rs, (n - 1) as nat) + related_json(rs[n - 1]) + (if n < rs.len() {
            ",\n".spec_bytes()
        } else {
            seq![10u8]
        })
    }
}

/// The start of a diagnostic's JSON object: code, severity, message and range.
pub open spec fn diagnostic_head(d: Diagnostic) -> Seq<u8> {
    "  {\n    \"code\": \"".spec_bytes() + d.code.spec_bytes() + "\",\n    \"severity\": \"".spec_bytes() + (
    match d.severity {
        DiagnosticSeverity::Error => "error".spec_bytes(),
        DiagnosticSeverity::Warning => "warning".spec_bytes(),
    }) + "\",\n    \"message\": \"".spec_bytes() + json_escaped(encode_utf8(d.message@))
        + "\",\n    \"range\": {\n      \"start\": ".spec_bytes() + position_json(d.range.start)
        + ",\n      \"end\": ".spec_bytes() + position_json(d.range.end) + "\n    }".spec_bytes()
}

/// The end of a diagnostic's JSON object: its related locations, if any.
pub open spec fn diagnostic_tail(d: Diagnostic) -> Seq<u8> {
    if d.related@.len() == 0 {
        "\n  }".spec_bytes()
    } else {
        ",\n    \"related\": [\n".spec_bytes() + related_items(d.related@, d.related@.len()) + "    ]\n  }".spec_bytes()
    }
}

/// A diagnostic as a JSON object: code, severity, message, range and related locations.
pub open spec fn diagnostic_json(d: Diagnostic) -> Seq<u8> {
    diagnostic_head(d) + diagnostic_tail(d)
}

/// The first `n` diagnostics, each followed by a comma and a line end, the last by a line end.
pub open spec fn diagnostic_items(ds: Seq<Diagnostic>, n: nat) -> Seq<u8>
    decreases n,
{
    if n == 0 || n > ds.len() {
        Seq::empty()
    } else {
        diagnostic_items(ds, (n - 1) as nat) + diagnostic_json(ds[n - 1]) + (if n < ds.len() {
            ",\n".spec_bytes()
        } else {
            seq![10u8]
        })
    }
}

/// The diagnostics as a JSON array.
pub open spec fn diagnostics_json(ds: Seq<Diagnostic>) -> Seq<u8> {
    if ds.len() == 0 {
        "[]".spec_bytes()
    } else {
        "[\n".spec_bytes() + diagnostic_items(ds, ds.len()) + seq![93u8]
    }
}

fn push_position(out: &mut Vec<u8>, p: Position)
    ensures
        final(out)@ == old(out)@ + position_json(p),
{
    let ghost o0 = out@;
    push_str(out, "{ \"line\": ");
    push_decimal(out, p.line as u64);
    push_str(out, ", \"character\": ");
    push_decimal(out, p.character as u64);
    push_str(out, " }");
    proof {
        assert(out@ =~= o0 + position_json(p));
    }
}

fn push_related(out: &mut Vec<u8>, related: &RelatedDiagnostic)
    ensures
        final(out)@ == old(out)@ + related_json(*related),
{
    let ghost o0 = out@;
    push_str(out, "      {\n        \"range\": {\n          \"start\": ");
    push_position(out, related.range.start);
    push_str(out, ",\n          \"end\": ");
    push_position(out, related.range.end);
    push_str(out, "\n        }");
    let ghost o1 = out@;
    match &related.message {
        Some(m) => {
            push_str(out, ",\n        \"message\": \"");
            push_json_escaped(out, string_bytes(m));
            push_str(out, "\"\n      }");
        },
        None => push_str(out, "\n      }"),
    }
    proof {
        let tail = if related.message is Some {
            ",\n        \"message\": \"".spec_bytes() + json_escaped(encode_utf8(related.message->0@)) + "\"\n      }".spec_bytes()
        } else {
            "\n      }".spec_bytes()
        };
        assert(out@ =~= o1 + tail);
        assert(out@ =~= o0 + related_json(*related));
    }
}

fn push_diagnostic_head(out: &mut Vec<u8>, diag: &Diagnostic)
    ensures
        final(out)@ == old(out)@ + diagnostic_head(*diag),
{
    let ghost o0 = out@;
    push_str(out, "  {\n    \"code\": \"");
    push_str(out, diag.code);
    push_str(out, "\",\n    \"severity\": \"");
    push_str(out, severity_label(diag.severity));
    push_str(out, "\",\n    \"message\": \"");
    let ghost o1 = out@;
    push_json_escaped(out, string_bytes(&diag.message));
    push_str(out, "\",\n    \"range\": {\n      \"start\": ");
    push_position(out, diag.range.start);
    push_str(out, ",\n      \"end\": ");
    push_position(out, diag.range.end);
    push_str(out, "\n    }");
    proof {
        let sev = match diag.severity {
            DiagnosticSeverity::Error => "error".spec_bytes(),
            DiagnosticSeverity::Warning => "warning".spec_bytes(),
        };
        assert(o1 =~= o0 + ("  {\n    \"code\": \"".spec_bytes() + diag.code.spec_bytes() + "\",\n    \"severity\": \"".spec_bytes()
            + sev + "\",\n    \"message\": \"".spec_bytes()));
        assert(out@ =~= o0 + diagnostic_head(*diag));
    }
}

fn push_diagnostic(out: &mut Vec<u8>, diag: &Diagnostic)
    ensures
        final(out)@ == old(out)@ + diagnostic_json(*diag),
{
    let ghost o0 = out@;
    push_diagnostic_head(out, diag);
    let ghost o1 = out@;
    if diag.related.len() == 0 {
        push_str(out, "\n  }");
    } else {
        push_str(out, ",\n    \"related\": [\n");
        push_related_items(out, &diag.related);
        push_str(out, "    ]\n  }");
    }
    proof {
        assert(out@ =~= o1 + diagnostic_tail(*diag));
        assert(out@ =~= o0 + diagnostic_json(*diag));
    }
}

fn push_related_items(out: &mut Vec<u8>, related: &Vec<RelatedDiagnostic>)
    ensures
        final(out)@ == old(out)@ + related_items(related@, related@.len()),
{
    let ghost o2 = out@;
    let mut r: usize = 0;
    while r < related.len()
        invariant
            r <= related@.len(),
            out@ == o2 + related_items(related@, r as nat),
        decreases related.len() - r,
    {
        push_related(out, &related[r]);
        if r + 1 < related.len() {
            push_str(out, ",\n");
        } else {
            out.push(10u8);
        }
        proof {
            let sep = if r + 1 < related@.len() {
                ",\n".spec_bytes()
            } else {
                seq![10u8]
            };
            assert(related_items(related@, (r + 1) as nat) == related_items(related@, r as nat) + related_json(related@[r as int]) + sep);
            assert(out@ =~= o2 + related_items(related@, (r + 1) as nat));
        }
        r = r + 1;
    }
}

/// The JSON escape of two texts one after the other is the escape of each.
proof fn lemma_json_escaped_concat(a: Seq<u8>, b: Seq<u8>)
    ensures
        json_escaped(a + b) == json_escaped(a) + json_escaped(b),
    decreases b.len(),
{
    if b.len() == 0 {
        assert(a + b =~= a);
        assert(json_escaped(a) + json_escaped(b) =~= json_escaped(a));
    } else {
        lemma_json_escaped_concat(a, b.drop_last());
        assert((a + b).drop_last() =~= a + b.drop_last());
        assert((a + b).last() == b.last());
        assert(json_escaped(a + b) =~= json_escaped(a) + json_escaped(b));
    }
}

proof fn lemma_json_escaped_high(s: Seq<u8>)
    requires
        forall|k: int| 0 <= k < s.len() ==> #[trigger] s[k] >= 128,
    ensures
        json_escaped(s) == s,
    decreases s.len(),
{
    if s.len() > 0 {
        lemma_json_escaped_high(s.drop_last());
        assert(s.drop_last().push(s.last()) =~= s);
        assert(json_escape_byte(s.last()) =~= seq![s.last()]);
    }
}

/// The JSON escape of UTF-8 is UTF-8: only ASCII bytes are replaced, by ASCII.
proof fn lemma_json_escaped_valid(s: Seq<u8>)
    requires
        valid_utf8(s),
    ensures
        valid_utf8(json_escaped(s)),
    decreases s.len(),
{
    if s.len() > 0 {
        let l = vstd::utf8::length_of_first_scalar(s);
        let t = s.subrange(0, l);
        let rest = vstd::utf8::pop_first_scalar(s);
        assert(s =~= t + rest);
        lemma_json_escaped_concat(t, rest);
        lemma_json_escaped_valid(rest);
        if vstd::utf8::is_leading_byte_width_1(s[0]) {
            assert(t =~= seq![s[0]]);
            assert(t.drop_last() =~= Seq::<u8>::empty());
            assert(t.last() == s[0]);
            assert(json_escaped(t.drop_last()) == Seq::<u8>::empty());
            assert(json_escaped(t) =~= json_escape_byte(s[0]));
            assert(ascii(json_escape_byte(s[0])));
            lemma_ascii_valid(json_escape_byte(s[0]));
            lemma_cat(json_escaped(t), json_escaped(rest));
        } else {
            lemma_json_escaped_high(t);
            let u = t + json_escaped(rest);
            assert(u[0] == s[0]);
            assert(l >= 2 ==> u[1] == s[1]);
            assert(l >= 3 ==> u[2] == s[2]);
            assert(l >= 4 ==> u[3] == s[3]);
            assert(vstd::utf8::valid_first_scalar(u));
            assert(vstd::utf8::length_of_first_scalar(u) == l);
            assert(vstd::utf8::pop_first_scalar(u) =~= json_escaped(rest));
        }
    }
}

proof fn lemma_position_json_valid(p: Position)
    ensures
        valid_utf8(position_json(p)),
{
    lemma_str_valid("{ \"line\": ");
    lemma_str_valid(", \"character\": ");
    lemma_str_valid(" }");
    lemma_decimal_ascii(p.line as nat);
    lemma_decimal_ascii(p.character as nat);
    lemma_ascii_valid(decimal(p.line as nat));
    lemma_ascii_valid(decimal(p.character as nat));
    lemma_valid_cat5(
        "{ \"line\": ".spec_bytes(),
        decimal(p.line as nat),
        ", \"character\": ".spec_bytes(),
        decimal(p.character as nat),
        " }".spec_bytes(),
    );
}

proof fn lemma_related_json_valid(r: RelatedDiagnostic)
    ensures
        valid_utf8(related_json(r)),
{
    lemma_str_valid("      {\n        \"range\": {\n          \"start\": ");
    lemma_str_valid(",\n          \"end\": ");
    lemma_str_valid("\n        }");
    lemma_str_valid(",\n        \"message\": \"");
    lemma_str_valid("\"\n      }");
    lemma_str_valid("\n      }");
    lemma_position_json_valid(r.range.start);
    lemma_position_json_valid(r.range.end);
    let tail = match r.message {
        Some(m) => ",\n        \"message\": \"".spec_bytes() + json_escaped(encode_utf8(m@)) + "\"\n      }".spec_bytes(),
        None => "\n      }".spec_bytes(),
    };
    match r.message {
        Some(m) => {
            vstd::utf8::encode_utf8_valid_utf8(m@);
            lemma_json_escaped_valid(encode_utf8(m@));
            lemma_valid_cat3(",\n        \"message\": \"".spec_bytes(), json_escaped(encode_utf8(m@)), "\"\n      }".spec_bytes());
        },
        None => {},
    }
    lemma_valid_cat5(
        "      {\n        \"range\": {\n          \"start\": ".spec_bytes(),
        position_json(r.range.start),
        ",\n          \"end\": ".spec_bytes(),
        position_json(r.range.end),
        "\n        }".spec_bytes(),
    );
    lemma_cat(
        "      {\n        \"range\": {\n          \"start\": ".spec_bytes() + position_json(r.range.start)
            + ",\n          \"end\": ".spec_bytes() + position_json(r.range.end) + "\n        }".spec_bytes(),
        tail,
    );
}

proof fn lemma_related_items_valid(rs: Seq<RelatedDiagnostic>, n: nat)
    ensures
        valid_utf8(related_items(rs, n)),
    decreases n,
{
    if n == 0 || n > rs.len() {
        lemma_empty_valid();
    } else {
        lemma_related_items_valid(rs, (n - 1) as nat);
        lemma_related_json_valid(rs[n - 1]);
        lemma_str_valid(",\n");
        assert(ascii(seq![10u8]));
        lemma_ascii_valid(seq![10u8]);
        let sep = if n < rs.len() {
            ",\n".spec_bytes()
        } else {
            seq![10u8]
        };
        lemma_valid_cat3(related_items(rs, (n - 1) as nat), related_json(rs[n - 1]), sep);
    }
}

proof fn lemma_diagnostic_json_valid(d: Diagnostic)
    ensures
        valid_utf8(diagnostic_json(d)),
{
    lemma_str_valid("  {\n    \"code\": \"");
    lemma_str_valid(d.code);
    lemma_str_valid("\",\n    \"severity\": \"");
    lemma_str_valid("error");
    lemma_str_valid("warning");
    lemma_str_valid("\",\n    \"message\": \"");
    lemma_str_valid("\",\n    \"range\": {\n      \"start\": ");
    lemma_str_valid(",\n      \"end\": ");
    lemma_str_valid("\n    }");
    lemma_str_valid("\n  }");
    lemma_str_valid(",\n    \"related\": [\n");
    lemma_str_valid("    ]\n  }");
    vstd::utf8::encode_utf8_valid_utf8(d.message@);
    lemma_json_escaped_valid(encode_utf8(d.message@));
    lemma_position_json_valid(d.range.start);
    lemma_position_json_valid(d.range.end);
    lemma_related_items_valid(d.related@, d.related@.len());
    let sev = match d.severity {
        DiagnosticSeverity::Error => "error".spec_bytes(),
        DiagnosticSeverity::Warning => "warning".spec_bytes(),
    };
    lemma_valid_cat3(",\n    \"related\": [\n".spec_bytes(), related_items(d.related@, d.related@.len()), "    ]\n  }".spec_bytes());
    assert(valid_utf8(diagnostic_tail(d)));
    lemma_valid_cat5("  {\n    \"code\": \"".spec_bytes(), d.code.spec_bytes(), "\",\n    \"severity\": \"".spec_bytes(), sev, "\",\n    \"message\": \"".spec_bytes());
    let a = "  {\n    \"code\": \"".spec_bytes() + d.code.spec_bytes() + "\",\n    \"severity\": \"".spec_bytes() + sev + "\",\n    \"message\": \"".spec_bytes();
    lemma_valid_cat5(a, json_escaped(encode_utf8(d.message@)), "\",\n    \"range\": {\n      \"start\": ".spec_bytes(), position_json(d.range.start), ",\n      \"end\": ".spec_bytes());
    let b = a + json_escaped(encode_utf8(d.message@)) + "\",\n    \"range\": {\n      \"start\": ".spec_bytes() + position_json(d.range.start) + ",\n      \"end\": ".spec_bytes();
    lemma_valid_cat3(b, position_json(d.range.end), "\n    }".spec_bytes());
    assert(diagnostic_head(d) == b + position_json(d.range.end) + "\n    }".spec_bytes());
    lemma_cat(diagnostic_head(d), diagnostic_tail(d));
}

proof fn lemma_diagnostic_items_valid(ds: Seq<Diagnostic>, n: nat)
    ensures
        valid_utf8(diagnostic_items(ds, n)),
    decreases n,
{
    if n == 0 || n > ds.len() {
        lemma_empty_valid();
    } else {
        lemma_diagnostic_items_valid(ds, (n - 1) as nat);
        lemma_diagnostic_json_valid(ds[n - 1]);
        lemma_str_valid(",\n");
        assert(ascii(seq![10u8]));
        lemma_ascii_valid(seq![10u8]);
        let sep = if n < ds.len() {
            ",\n".spec_bytes()
        } else {
            seq![10u8]
        };
        lemma_valid_cat3(diagnostic_items(ds, (n - 1) as nat), diagnostic_json(ds[n - 1]), sep);
    }
}

proof fn lemma_diagnostics_json_valid(ds: Seq<Diagnostic>)
    ensures
        valid_utf8(diagnostics_json(ds)),
{
    lemma_str_valid("[]");
    lemma_str_valid("[\n");
    assert(ascii(seq![93u8]));
    lemma_ascii_valid(seq![93u8]);
    lemma_diagnostic_items_valid(ds, ds.len());
    lemma_valid_cat3("[\n".spec_bytes(), diagnostic_items(ds, ds.len()), seq![93u8]);
}

fn push_diagnostic_items(out: &mut Vec<u8>, diagnostics: &[Diagnostic])
    ensures
        final(out)@ == old(out)@ + diagnostic_items(diagnostics@, diagnostics@.len()),
{
    let ghost o1 = out@;
    let mut idx: usize = 0;
    while idx < diagnostics.len()
        invariant
            idx <= diagnostics@.len(),
            out@ == o1 + diagnostic_items(diagnostics@, idx as nat),
        decreases diagnostics.len() - idx,
    {
        push_diagnostic(out, &diagnostics[idx]);
        if idx + 1 < diagnostics.len() {
            push_str(out, ",\n");
        } else {
            out.push(10u8);
        }
        proof {
            let sep = if idx + 1 < diagnostics@.len() {
                ",\n".spec_bytes()
            } else {
                seq![10u8]
            };
            assert(diagnostic_items(diagnostics@, (idx + 1) as nat) == diagnostic_items(diagnostics@, idx as nat)
                + diagnostic_json(diagnostics@[idx as int]) + sep);
            assert(out@ =~= o1 + diagnostic_items(diagnostics@, (idx + 1) as nat));
        }
        idx = idx + 1;
    }
}

/// The diagnostics as a JSON array: code, severity, message, range and related locations.
pub fn diagnostics_to_json(diagnostics: &[Diagnostic]) -> (r: String)
    ensures
        r@ == decode_utf8(diagnostics_json(diagnostics@)),
{
    if diagnostics.len() == 0 {
        proof {
            lemma_str_valid("[]");
        }
        return string_from_bytes("[]".as_bytes());
    }
    let mut out: Vec<u8> = Vec::new();
    push_str(&mut out, "[\n");
    push_diagnostic_items(&mut out, diagnostics);
    out.push(93u8);
    proof {
        assert(out@ =~= diagnostics_json(diagnostics@));
        lemma_diagnostics_json_valid(diagnostics@);
    }
    string_from_bytes(out.as_slice())
}

/// The CSS variable that a document setting sets.
pub open spec fn setting_var_spec(key: Seq<u8>) -> Option<&'static str> {
    if key == "font-size".spec_bytes() {
        Some("--typmark-font-size")
    } else if key == "line-height".spec_bytes() {
        Some("--typmark-line-height")
    } else if key == "font".spec_bytes() {
        Some("--typmark-font")
    } else if key == "code-font".spec_bytes() {
        Some("--typmark-code-font")
    } else if key == "code-size".spec_bytes() {
        Some("--typmark-code-size")
    } else if key == "paragraph-gap".spec_bytes() {
        Some("--typmark-paragraph-gap")
    } else if key == "page-width".spec_bytes() {
        Some("--typmark-page-width")
    } else if key == "image-max-width".spec_bytes() {
        Some("--typmark-image-max-width")
    } else {
        None
    }
}

/// The CSS variable that a document setting sets.
pub fn setting_var(key: &[u8]) -> (r: Option<&'static str>)
    ensures
        r == setting_var_spec(key@),
{
    if bytes_eq(key, "font-size".as_bytes()) {
        Some("--typmark-font-size")
    } else if bytes_eq(key, "line-height".as_bytes()) {
        Some("--typmark-line-height")
    } else if bytes_eq(key, "font".as_bytes()) {
        Some("--typmark-font")
    } else if bytes_eq(key, "code-font".as_bytes()) {
        Some("--typmark-code-font")
    } else if bytes_eq(key, "code-size".as_bytes()) {
        Some("--typmark-code-size")
    } else if bytes_eq(key, "paragraph-gap".as_bytes()) {
        Some("--typmark-paragraph-gap")
    } else if bytes_eq(key, "page-width".as_bytes()) {
        Some("--typmark-page-width")
    } else if bytes_eq(key, "image-max-width".as_bytes()) {
        Some("--typmark-image-max-width")
    } else {
        None
    }
}

/// The value that a setting gives its variable: its trimmed text, `none` for an `auto` page
/// width.
pub open spec fn setting_value(item: AttrItem) -> Seq<char> {
    let v = lossy_decode(trimmed(encode_utf8(item.value.raw@)));
    if encode_utf8(item.key@) == "page-width".spec_bytes() && encode_utf8(v) == "auto".spec_bytes() {
        "none"@
    } else {
        v
    }
}

/// A setting sets the variable `var`: its key names that variable and its value is not blank.
pub open spec fn sets_var(item: AttrItem, var: Seq<u8>) -> bool {
    &&& trimmed(encode_utf8(item.value.raw@)).len() > 0
    &&& setting_var_spec(encode_utf8(item.key@)) is Some
    &&& setting_var_spec(encode_utf8(item.key@))->0.spec_bytes() == var
}

/// What the settings set a variable to, if any: the last setting of it wins.
pub open spec fn settings_var(items: Seq<AttrItem>, var: Seq<u8>) -> Option<Seq<char>>
    decreases items.len(),
{
    if items.len() == 0 {
        None
    } else if sets_var(items.last(), var) {
        Some(setting_value(items.last()))
    } else {
        settings_var(items.drop_last(), var)
    }
}

/// Applies the document settings that set page style variables (font and code font, sizes,
/// line height, paragraph gap, page width (`auto` meaning none) and image width); settings
/// with a blank value are skipped, and a later setting of a variable wins.
pub fn apply_renderer_settings(renderer: Renderer, settings: Option<&AttrList>) -> (r: Renderer)
    ensures
        r.spec_theme() == renderer.spec_theme(),
        settings is None ==> r == renderer,
        settings matches Some(a) ==> forall|k: Seq<u8>| #[trigger] var_lookup(r.spec_vars(), k) == match settings_var(a.items@, k) {
            Some(v) => Some(v),
            None => var_lookup(renderer.spec_vars(), k),
        },
{
    let ghost theme = renderer.spec_theme();
    let ghost orig = renderer;
    let mut renderer = renderer;
    let settings = match settings {
        Some(s) => s,
        None => return renderer,
    };
    let mut i: usize = 0;
    proof {
        assert(settings.items@.take(0) =~= Seq::<AttrItem>::empty());
    }
    while i < settings.items.len()
        invariant
            i <= settings.items@.len(),
            renderer.spec_theme() == theme,
            forall|k: Seq<u8>| #[trigger] var_lookup(renderer.spec_vars(), k) == match settings_var(settings.items@.take(i as int), k) {
                Some(v) => Some(v),
                None => var_lookup(orig.spec_vars(), k),
            },
        decreases settings.items.len() - i,
    {
        let item = &settings.items[i];
        let ghost items = settings.items@;
        proof {
            assert(items.take(i + 1).drop_last() =~= items.take(i as int));
            assert(items.take(i + 1).last() == items[i as int]);
        }
        i = i + 1;
        let raw = string_bytes(&item.value.raw);
        let (a, b) = trim_range(raw, 0, raw.len());
        if a >= b {
            proof {
                assert(trimmed(raw@) =~= raw@.subrange(a as int, b as int));
            }
            continue;
        }
        let value = string_from_bytes(copy_range(raw, a, b).as_slice());
        proof {
            assert(trimmed(raw@) =~= raw@.subrange(a as int, b as int));
        }
        let key = string_bytes(&item.key);
        if let Some(var) = setting_var(key) {
            if bytes_eq(key, "page-width".as_bytes()) && bytes_eq(string_bytes(&value), "auto".as_bytes()) {
                renderer = renderer.with_var(var, "none");
            } else {
                renderer = renderer.with_var(var, value.as_str());
            }
        }
    }
    proof {
        assert(settings.items@.take(settings.items@.len() as int) =~= settings.items@);
    }
    renderer
}

/// The PDF settings of a document: page size, margins, scale, base URL and backend.
#[derive(Clone, Debug)]
pub struct PdfSettings {
    pub page: Option<String>,
    pub margin: Option<PdfMargin>,
    pub scale: Option<String>,
    pub base: Option<String>,
    pub backend: PdfBackend,
}

impl PdfSettings {
    /// No page size, scale or base URL; a 1.5rem margin on each side; the backend chosen
    /// automatically.
    pub fn defaults() -> (s: PdfSettings)
        ensures
            s.page is None,
            s.scale is None,
            s.base is None,
            s.backend == PdfBackend::Auto,
            s.margin matches Some(m) && m.top@ == "1.5rem"@ && m.right@ == "1.5rem"@ && m.bottom@
                == "1.5rem"@ && m.left@ == "1.5rem"@,
    {
        PdfSettings {
            page: None,
            margin: Some(PdfMargin::new("1.5rem", "1.5rem", "1.5rem", "1.5rem")),
            scale: None,
            base: None,
            backend: PdfBackend::Auto,
        }
    }
}

/// The trimmed value of the last item among `items` with key `key` whose trimmed value is not
/// empty.
pub open spec fn last_pdf_setting(items: Seq<AttrItem>, key: Seq<u8>) -> Option<Seq<u8>>
    decreases items.len(),
{
    if items.len() == 0 {
        None
    } else {
        let it = items.last();
        let v = trimmed(encode_utf8(it.value.raw@));
        if encode_utf8(it.key@) == key && v.len() > 0 {
            Some(v)
        } else {
            last_pdf_setting(items.drop_last(), key)
        }
    }
}

/// The backend that a value names, if it names one.
pub open spec fn backend_named(v: Seq<u8>) -> Option<PdfBackend> {
    if v == "auto".spec_bytes() {
        Some(PdfBackend::Auto)
    } else if v == "chromium".spec_bytes() || v == "chrome".spec_bytes() {
        Some(PdfBackend::Chromium)
    } else if v == "wkhtmltopdf".spec_bytes() || v == "wkhtml".spec_bytes() {
        Some(PdfBackend::Wkhtmltopdf)
    } else {
        None
    }
}

/// The bytes of the text that bytes decode to (invalid sequences replaced).
pub open spec fn text_bytes(v: Seq<u8>) -> Seq<u8> {
    encode_utf8(lossy_decode(v))
}

/// Whether reading the PDF settings stops at an item: its trimmed value is not empty and it
/// is a `pdf-scale` (whose number the caller checks), a margin without one to four words, or
/// a backend that names none.
pub open spec fn pdf_stops_at(it: AttrItem) -> bool {
    let k = encode_utf8(it.key@);
    let v = trimmed(encode_utf8(it.value.raw@));
    let t = text_bytes(v);
    v.len() > 0 && (k == "pdf-scale".spec_bytes() || (k == "pdf-margin".spec_bytes() && (
    margin_words_spec(t).len() == 0 || margin_words_spec(t).len() > 4)) || (k == "pdf-backend".spec_bytes()
        && backend_named(t) is None))
}

/// The first index from `i` at which reading stops, or the number of items.
pub open spec fn pdf_stop(items: Seq<AttrItem>, i: int) -> int
    decreases items.len() - i,
{
    if i >= items.len() || i < 0 {
        items.len() as int
    } else if pdf_stops_at(items[i]) {
        i
    } else {
        pdf_stop(items, i + 1)
    }
}

/// What reading the items `from..to` (none of which stops it) makes of settings `s0` in `s`:
/// each of page, base, margin and backend is its last value there, parsed, or as it was.
pub open spec fn pdf_read(items: Seq<AttrItem>, from: int, to: int, s0: PdfSettings, s: PdfSettings) -> bool {
    let part = items.subrange(from, to);
    &&& match last_pdf_setting(part, "pdf-page".spec_bytes()) {
        Some(v) => s.page matches Some(p) && p@ == lossy_decode(v),
        None => s.page == s0.page,
    }
    &&& match last_pdf_setting(part, "pdf-base".spec_bytes()) {
        Some(v) => s.base matches Some(b) && b@ == lossy_decode(v),
        None => s.base == s0.base,
    }
    &&& match last_pdf_setting(part, "pdf-backend".spec_bytes()) {
        Some(v) => backend_named(text_bytes(v)) == Some(s.backend),
        None => s.backend == s0.backend,
    }
    &&& match last_pdf_setting(part, "pdf-margin".spec_bytes()) {
        Some(v) => {
            let w = margin_words_spec(text_bytes(v));
            s.margin matches Some(m) && m.top@ == lossy_decode(margin_side(w, 0)) && m.right@ == lossy_decode(
                margin_side(w, 1),
            ) && m.bottom@ == lossy_decode(margin_side(w, 2)) && m.left@ == lossy_decode(margin_side(w, 3))
        },
        None => s.margin == s0.margin,
    }
    &&& s.scale == s0.scale
}

/// Reads the PDF settings `pdf-page`, `pdf-margin`, `pdf-base` and `pdf-backend` from the
/// items from `from` on into `pdf` (an item with a blank value, or another key, changes
/// nothing; the last value of each key counts), up to the first item at which reading stops:
/// a `pdf-scale` with a value, whose index it gives for the caller to check the number (and
/// record the value with `accept_pdf_scale`); a bad margin or backend, whose error it gives.
/// Without such an item it reads them all and gives `None`.
pub fn read_pdf_settings(settings: &AttrList, pdf: &mut PdfSettings, from: usize) -> (r: Result<
    Option<usize>,
    String,
>)
    requires
        from <= settings.items@.len(),
    ensures
        ({
            let stop = pdf_stop(settings.items@, from as int);
            &&& pdf_read(settings.items@, from as int, stop, *old(pdf), *final(pdf))
            &&& (stop == settings.items@.len() <==> r == Ok::<Option<usize>, String>(None))
            &&& (stop < settings.items@.len() && encode_utf8(settings.items@[stop].key@) == "pdf-scale".spec_bytes())
                <==> r == Ok::<Option<usize>, String>(Some(stop as usize))
        }),
{
    let ghost items = settings.items@;
    let ghost s0 = *pdf;
    let mut i = from;
    proof {
        assert(items.subrange(from as int, from as int) =~= Seq::<AttrItem>::empty());
    }
    while i < settings.items.len()
        invariant
            from <= i <= items.len(),
            items == settings.items@,
            s0 == *old(pdf),
            pdf_stop(items, from as int) == pdf_stop(items, i as int),
            forall|k: int| from <= k < i ==> !pdf_stops_at(#[trigger] items[k]),
            pdf_read(items, from as int, i as int, s0, *pdf),
        decreases settings.items.len() - i,
    {
        let item = &settings.items[i];
        let raw = string_bytes(&item.value.raw);
        let (a, b) = trim_range(raw, 0, raw.len());
        proof {
            assert(trimmed(raw@) =~= raw@.subrange(a as int, b as int));
            assert(items.subrange(from as int, i + 1).drop_last() =~= items.subrange(from as int, i as int));
            assert(items.subrange(from as int, i + 1).last() == items[i as int]);
        }
        let key = string_bytes(&item.key);
        proof {
            lemma_pdf_keys_differ();
        }
        if a < b {
            let vb = copy_range(raw, a, b);
            let value = string_from_bytes(vb.as_slice());
            if bytes_eq(key, "pdf-scale".as_bytes()) {
                assert(pdf_stops_at(items[i as int]));
                return Ok(Some(i));
            } else if bytes_eq(key, "pdf-page".as_bytes()) {
                pdf.page = Some(value);
            } else if bytes_eq(key, "pdf-base".as_bytes()) {
                pdf.base = Some(value);
            } else if bytes_eq(key, "pdf-margin".as_bytes()) {
                match parse_pdf_margin(value.as_str()) {
                    Ok(m) => pdf.margin = Some(m),
                    Err(e) => return Err(e),
                }
            } else if bytes_eq(key, "pdf-backend".as_bytes()) {
                match parse_pdf_backend(value.as_str()) {
                    Ok(bk) => pdf.backend = bk,
                    Err(e) => return Err(e),
                }
            }
        }
        proof {
            assert(!pdf_stops_at(items[i as int]));
            assert(pdf_stop(items, i as int) == pdf_stop(items, i + 1));
        }
        i = i + 1;
    }
    Ok(None)
}

/// The PDF setting keys differ from `pdf-scale`.
proof fn lemma_pdf_keys_differ()
    ensures
        "pdf-scale".spec_bytes() != "pdf-page".spec_bytes(),
        "pdf-scale".spec_bytes() != "pdf-base".spec_bytes(),
        "pdf-scale".spec_bytes() != "pdf-margin".spec_bytes(),
        "pdf-scale".spec_bytes() != "pdf-backend".spec_bytes(),
        "pdf-page".spec_bytes() != "pdf-base".spec_bytes(),
        "pdf-page".spec_bytes() != "pdf-margin".spec_bytes(),
        "pdf-page".spec_bytes() != "pdf-backend".spec_bytes(),
        "pdf-base".spec_bytes() != "pdf-margin".spec_bytes(),
        "pdf-base".spec_bytes() != "pdf-backend".spec_bytes(),
        "pdf-margin".spec_bytes() != "pdf-backend".spec_bytes(),
{
    reveal_strlit("pdf-scale");
    reveal_strlit("pdf-page");
    reveal_strlit("pdf-base");
    reveal_strlit("pdf-margin");
    reveal_strlit("pdf-backend");
    assert(vstd::string::is_ascii("pdf-scale"));
    assert(vstd::string::is_ascii("pdf-page"));
    assert(vstd::string::is_ascii("pdf-base"));
    assert(vstd::string::is_ascii("pdf-margin"));
    assert(vstd::string::is_ascii("pdf-backend"));
    vstd::string::is_ascii_spec_bytes("pdf-scale");
    vstd::string::is_ascii_spec_bytes("pdf-page");
    vstd::string::is_ascii_spec_bytes("pdf-base");
    vstd::string::is_ascii_spec_bytes("pdf-margin");
    vstd::string::is_ascii_spec_bytes("pdf-backend");
    assert("pdf-page".spec_bytes()[4] != "pdf-base".spec_bytes()[4]);
}

/// Records a `pdf-scale` value (its number checked by the caller): the trimmed value.
pub fn accept_pdf_scale(settings: &AttrList, pdf: &mut PdfSettings, at: usize)
    requires
        at < settings.items@.len(),
    ensures
        final(pdf).scale matches Some(v) && v@ == lossy_decode(trimmed(encode_utf8(settings.items@[at as int].value.raw@))),
        final(pdf).page == old(pdf).page,
        final(pdf).margin == old(pdf).margin,
        final(pdf).base == old(pdf).base,
        final(pdf).backend == old(pdf).backend,
{
    let raw = string_bytes(&settings.items[at].value.raw);
    let (a, b) = trim_range(raw, 0, raw.len());
    proof {
        assert(trimmed(raw@) =~= raw@.subrange(a as int, b as int));
    }
    pdf.scale = Some(string_from_bytes(copy_range(raw, a, b).as_slice()));
}

/// The PDF backend that a setting names: `auto`, `chromium` (or `chrome`), `wkhtmltopdf` (or
/// `wkhtml`).
pub fn parse_pdf_backend(value: &str) -> (r: Result<PdfBackend, String>)
    ensures
        value.spec_bytes() == "auto".spec_bytes() ==> r == Ok::<PdfBackend, String>(PdfBackend::Auto),
        value.spec_bytes() != "auto".spec_bytes() && (value.spec_bytes() == "chromium".spec_bytes()
            || value.spec_bytes() == "chrome".spec_bytes()) ==> r == Ok::<PdfBackend, String>(
            PdfBackend::Chromium,
        ),
        value.spec_bytes() != "auto".spec_bytes() && value.spec_bytes() != "chromium".spec_bytes()
            && value.spec_bytes() != "chrome".spec_bytes() && (value.spec_bytes()
            == "wkhtmltopdf".spec_bytes() || value.spec_bytes() == "wkhtml".spec_bytes()) ==> r
            == Ok::<PdfBackend, String>(PdfBackend::Wkhtmltopdf),
        r is Err <==> !(value.spec_bytes() == "auto".spec_bytes() || value.spec_bytes()
            == "chromium".spec_bytes() || value.spec_bytes() == "chrome".spec_bytes() || value.spec_bytes()
            == "wkhtmltopdf".spec_bytes() || value.spec_bytes() == "wkhtml".spec_bytes()),
{
    let v = value.as_bytes();
    if bytes_eq(v, "auto".as_bytes()) {
        Ok(PdfBackend::Auto)
    } else if bytes_eq(v, "chromium".as_bytes()) || bytes_eq(v, "chrome".as_bytes()) {
        Ok(PdfBackend::Chromium)
    } else if bytes_eq(v, "wkhtmltopdf".as_bytes()) || bytes_eq(v, "wkhtml".as_bytes()) {
        Ok(PdfBackend::Wkhtmltopdf)
    } else {
        let mut msg: Vec<u8> = Vec::new();
        push_str(&mut msg, "unsupported pdf-backend: ");
        push_all(&mut msg, v);
        push_str(&mut msg, " (expected auto|chromium|wkhtmltopdf)");
        Err(string_from_bytes(msg.as_slice()))
    }
}

/// The length of the separator at `i`: a comma or a Unicode whitespace character.
pub open spec fn separator_len(s: Seq<u8>, i: int) -> int {
    if 0 <= i < s.len() && s[i] == 44u8 {
        1
    } else {
        ws_len_at(s, i)
    }
}

/// The words of `s` from `i` on, `cur` being the word begun before `i`.
pub open spec fn words_from(s: Seq<u8>, i: int, cur: Seq<u8>) -> Seq<Seq<u8>>
    decreases s.len() - i,
{
    if i < 0 || i >= s.len() {
        if cur.len() > 0 {
            seq![cur]
        } else {
            Seq::empty()
        }
    } else {
        let n = separator_len(s, i);
        if n > 0 {
            (if cur.len() > 0 {
                seq![cur]
            } else {
                Seq::empty()
            }) + words_from(s, if n <= s.len() - i { i + n } else { s.len() as int }, Seq::empty())
        } else {
            words_from(s, i + 1, cur.push(s[i]))
        }
    }
}

/// The words of a text: its parts between runs of whitespace, commas counting as spaces.
pub open spec fn margin_words_spec(s: Seq<u8>) -> Seq<Seq<u8>> {
    words_from(s, 0, Seq::empty())
}

/// The words of a text: its parts between runs of whitespace, commas counting as spaces.
pub fn margin_words(value: &[u8]) -> (r: Vec<Vec<u8>>)
    ensures
        r@.len() == margin_words_spec(value@).len(),
        forall|k: int| 0 <= k < r@.len() ==> #[trigger] r@[k]@ == margin_words_spec(value@)[k],
{
    let mut words: Vec<Vec<u8>> = Vec::new();
    let mut current: Vec<u8> = Vec::new();
    let n = value.len();
    let mut i: usize = 0;
    while i < n
        invariant
            i <= n,
            n == value@.len(),
            words@.map_values(|w: Vec<u8>| w@) + words_from(value@, i as int, current@) == margin_words_spec(value@),
        decreases n - i,
    {
        let ghost before = words@.map_values(|w: Vec<u8>| w@);
        let ws = if value[i] == 44u8 { 1 } else { unicode_ws_at(value, i) };
        proof {
            assert(ws == separator_len(value@, i as int));
        }
        if ws > 0 {
            if current.len() > 0 {
                let ghost c = current@;
                words.push(current);
                current = Vec::new();
                proof {
                    assert(words@.map_values(|w: Vec<u8>| w@) =~= before + seq![c]);
                }
            }
            i = if ws <= n - i { i + ws } else { n };
            proof {
                assert(current@ =~= Seq::<u8>::empty());
            }
        } else {
            current.push(value[i]);
            i = i + 1;
        }
    }
    if current.len() > 0 {
        let ghost before = words@.map_values(|w: Vec<u8>| w@);
        let ghost c = current@;
        words.push(current);
        proof {
            assert(words@.map_values(|w: Vec<u8>| w@) =~= before + seq![c]);
        }
    }
    proof {
        let m = words@.map_values(|w: Vec<u8>| w@);
        assert(m =~= margin_words_spec(value@));
        assert forall|k: int| 0 <= k < words@.len() implies #[trigger] words@[k]@ == margin_words_spec(value@)[k] by {
            assert(m[k] == words@[k]@);
        }
    }
    words
}

/// The margin of one side from the words given: as in CSS, one word for all sides; vertical
/// and horizontal; top, horizontal and bottom; or top, right, bottom and left (`side`: 0 top,
/// 1 right, 2 bottom, 3 left).
pub open spec fn margin_side(w: Seq<Seq<u8>>, side: int) -> Seq<u8> {
    let n = w.len();
    if n == 1 {
        w[0]
    } else if n == 2 {
        if side == 0 || side == 2 {
            w[0]
        } else {
            w[1]
        }
    } else if n == 3 {
        if side == 0 {
            w[0]
        } else if side == 2 {
            w[2]
        } else {
            w[1]
        }
    } else {
        w[side]
    }
}

/// Page margins from one to four CSS lengths (as in CSS: all; vertical horizontal; top
/// horizontal bottom; top right bottom left), separated by spaces or commas.
pub fn parse_pdf_margin(value: &str) -> (r: Result<PdfMargin, String>)
    ensures
        ({
            let w = margin_words_spec(value.spec_bytes());
            &&& (r is Err <==> w.len() == 0 || w.len() > 4)
            &&& (r matches Err(e) ==> e@ == lossy_decode(
                "pdf-margin expects 1 to 4 values, got ".spec_bytes() + decimal(w.len()),
            ))
            &&& (r matches Ok(m) ==> m.top@ == lossy_decode(margin_side(w, 0)) && m.right@ == lossy_decode(
                margin_side(w, 1),
            ) && m.bottom@ == lossy_decode(margin_side(w, 2)) && m.left@ == lossy_decode(margin_side(w, 3)))
        }),
{
    let words = margin_words(value.as_bytes());
    let ghost w = margin_words_spec(value.spec_bytes());
    let n = words.len();
    if n == 0 || n > 4 {
        let mut msg: Vec<u8> = Vec::new();
        push_str(&mut msg, "pdf-margin expects 1 to 4 values, got ");
        push_decimal(&mut msg, n as u64);
        return Err(string_from_bytes(msg.as_slice()));
    }
    proof {
        assert(words@[0]@ == w[0]);
    }
    let w0 = string_from_bytes(words[0].as_slice());
    let (t, r, b, l) = if n == 1 {
        (w0.clone(), w0.clone(), w0.clone(), w0)
    } else if n == 2 {
        proof {
            assert(words@[1]@ == w[1]);
        }
        let w1 = string_from_bytes(words[1].as_slice());
        (w0.clone(), w1.clone(), w0, w1)
    } else if n == 3 {
        proof {
            assert(words@[1]@ == w[1]);
            assert(words@[2]@ == w[2]);
        }
        let w1 = string_from_bytes(words[1].as_slice());
        let w2 = string_from_bytes(words[2].as_slice());
        (w0, w1.clone(), w2, w1)
    } else {
        proof {
            assert(words@[1]@ == w[1]);
            assert(words@[2]@ == w[2]);
            assert(words@[3]@ == w[3]);
        }
        (
            w0,
            string_from_bytes(words[1].as_slice()),
            string_from_bytes(words[2].as_slice()),
            string_from_bytes(words[3].as_slice()),
        )
    };
    Ok(PdfMargin::new(t.as_str(), r.as_str(), b.as_str(), l.as_str()))
}


/// The trimmed value of the last setting of `key` whose value is not blank.
pub open spec fn last_setting(items: Seq<AttrItem>, key: Seq<u8>) -> Option<Seq<char>>
    decreases items.len(),
{
    if items.len() == 0 {
        None
    } else if encode_utf8(items.last().key@) == key && trimmed(encode_utf8(items.last().value.raw@)).len() > 0 {
        Some(lossy_decode(trimmed(encode_utf8(items.last().value.raw@))))
    } else {
        last_setting(items.drop_last(), key)
    }
}

/// The three math setting keys are different texts.
proof fn lemma_math_keys_differ()
    ensures
        "math-inline-size".spec_bytes() != "math-block-size".spec_bytes(),
        "math-inline-size".spec_bytes() != "math-font".spec_bytes(),
        "math-block-size".spec_bytes() != "math-font".spec_bytes(),
{
    reveal_strlit("math-inline-size");
    reveal_strlit("math-block-size");
    reveal_strlit("math-font");
    assert(vstd::string::is_ascii("math-inline-size"));
    assert(vstd::string::is_ascii("math-block-size"));
    assert(vstd::string::is_ascii("math-font"));
    vstd::string::is_ascii_spec_bytes("math-inline-size");
    vstd::string::is_ascii_spec_bytes("math-block-size");
    vstd::string::is_ascii_spec_bytes("math-font");
}

/// The text of an optional string.
pub open spec fn opt_chars(o: Option<String>) -> Option<Seq<char>> {
    match o {
        Some(s) => Some(s@),
        None => None,
    }
}

/// The math settings of a document: `math-inline-size`, `math-block-size` and `math-font`,
/// each from the last setting of that key with a value that is not blank (trimmed).
pub fn math_settings_from(settings: Option<&AttrList>) -> (r: MathSettings)
    ensures
        settings is None ==> r.inline_size is None && r.block_size is None && r.font is None,
        settings matches Some(a) ==> opt_chars(r.inline_size) == last_setting(a.items@, "math-inline-size".spec_bytes())
            && opt_chars(r.block_size) == last_setting(a.items@, "math-block-size".spec_bytes())
            && opt_chars(r.font) == last_setting(a.items@, "math-font".spec_bytes()),
{
    let mut out = MathSettings { inline_size: None, block_size: None, font: None };
    let a = match settings {
        Some(a) => a,
        None => return out,
    };
    let mut i: usize = 0;
    proof {
        assert(a.items@.take(0) =~= Seq::<AttrItem>::empty());
        lemma_math_keys_differ();
    }
    while i < a.items.len()
        invariant
            "math-inline-size".spec_bytes() != "math-block-size".spec_bytes(),
            "math-inline-size".spec_bytes() != "math-font".spec_bytes(),
            "math-block-size".spec_bytes() != "math-font".spec_bytes(),
            i <= a.items@.len(),
            opt_chars(out.inline_size) == last_setting(a.items@.take(i as int), "math-inline-size".spec_bytes()),
            opt_chars(out.block_size) == last_setting(a.items@.take(i as int), "math-block-size".spec_bytes()),
            opt_chars(out.font) == last_setting(a.items@.take(i as int), "math-font".spec_bytes()),
        decreases a.items.len() - i,
    {
        let item = &a.items[i];
        proof {
            let items = a.items@;
            assert(items.take(i + 1).drop_last() =~= items.take(i as int));
            assert(items.take(i + 1).last() == items[i as int]);
        }
        let raw = string_bytes(&item.value.raw);
        let (x, y) = trim_range(raw, 0, raw.len());
        proof {
            assert(trimmed(raw@) =~= raw@.subrange(x as int, y as int));
        }
        if x < y {
            let value = string_from_bytes(copy_range(raw, x, y).as_slice());
            let key = string_bytes(&item.key);
            if bytes_eq(key, "math-inline-size".as_bytes()) {
                out.inline_size = Some(value);
            } else if bytes_eq(key, "math-block-size".as_bytes()) {
                out.block_size = Some(value);
            } else if bytes_eq(key, "math-font".as_bytes()) {
                out.font = Some(value);
            }
        }
        i = i + 1;
    }
    proof {
        assert(a.items@.take(a.items@.len() as int) =~= a.items@);
    }
    out
}
} // verus!
