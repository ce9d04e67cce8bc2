use vstd::prelude::*;
use vstd::string::StringSliceAdditionalSpecFns;
use crate::text::{
    push_all, push_str, string_bytes, string_from_bytes, lemma_str_valid, lemma_cat, lemma_encode_concat, trimmed,
    trim_range, copy_range, bytes_start_with, starts_at, lossy_decode,
};
use vstd::utf8::{decode_utf8, encode_utf8};

verus! {

/// The program that prints a page to PDF.
#[derive(Clone, Copy, Debug, PartialEq, Eq, Structural)]
pub enum PdfBackend {
    Auto,
    Chromium,
    Wkhtmltopdf,
}

/// Page margins (CSS lengths).
#[derive(Clone, Debug)]
pub struct PdfMargin {
    pub top: String,
    pub right: String,
    pub bottom: String,
    pub left: String,
}

impl PdfMargin {
    pub fn new(top: &str, right: &str, bottom: &str, left: &str) -> (m: PdfMargin)
        ensures
            m.top@ == top@,
            m.right@ == right@,
            m.bottom@ == bottom@,
            m.left@ == left@,
    {
        PdfMargin {
            top: top.to_owned(),
            right: right.to_owned(),
            bottom: bottom.to_owned(),
            left: left.to_owned(),
        }
    }
}

/// Options of PDF export.
#[derive(Clone, Debug)]
pub struct PdfOptions {
    pub backend: PdfBackend,
    pub page: Option<String>,
    pub margin: Option<PdfMargin>,
    pub scale: Option<String>,
    pub base_url: Option<String>,
}

impl PdfOptions {
    pub fn new(backend: PdfBackend) -> (o: PdfOptions)
        ensures
            o.backend == backend,
            o.page is None,
            o.margin is None,
            o.scale is None,
            o.base_url is None,
    {
        PdfOptions { backend, page: None, margin: None, scale: None, base_url: None }
    }

    pub fn with_page(self, page: &str) -> (o: PdfOptions)
        ensures
            o.page matches Some(p) && p@ == page@,
            o.backend == self.backend,
            o.margin == self.margin,
            o.scale == self.scale,
            o.base_url == self.base_url,
    {
        PdfOptions { page: Some(page.to_owned()), ..self }
    }

    pub fn with_margin(self, margin: PdfMargin) -> (o: PdfOptions)
        ensures
            o.margin == Some(margin),
            o.backend == self.backend,
            o.page == self.page,
            o.scale == self.scale,
            o.base_url == self.base_url,
    {
        PdfOptions { margin: Some(margin), ..self }
    }

    pub fn with_scale(self, scale: &str) -> (o: PdfOptions)
        ensures
            o.scale matches Some(s) && s@ == scale@,
            o.backend == self.backend,
            o.page == self.page,
            o.margin == self.margin,
            o.base_url == self.base_url,
    {
        PdfOptions { scale: Some(scale.to_owned()), ..self }
    }

    pub fn with_base_url(self, base_url: &str) -> (o: PdfOptions)
        ensures
            o.base_url matches Some(b) && b@ == base_url@,
            o.backend == self.backend,
            o.page == self.page,
            o.margin == self.margin,
            o.scale == self.scale,
    {
        PdfOptions { base_url: Some(base_url.to_owned()), ..self }
    }
}

/// The start of the PDF print stylesheet, up to the page margin.
pub const PDF_CSS_HEAD: &'static str = ":root {\n  --typmark-bg: #ffffff;\n  --typmark-fg: #111111;\n  --typmark-muted: #5f5f5f;\n  --typmark-border: #d6d6d6;\n  --typmark-accent: #1f5da8;\n  --typmark-code-bg: #f5f5f5;\n  --typmark-code-fg: #111111;\n  --typmark-box-bg: #f7f7f7;\n  --typmark-box-border: #d0d0d0;\n}\n@page { margin: ";

/// The rest of the PDF print stylesheet after the page margin.
pub const PDF_CSS_TAIL: &'static str = "; }\n@media print {\n  html,\n  body {\n    margin: 0;\n    width: 100%;\n    height: 100%;\n  }\n  body {\n    box-sizing: border-box;\n    max-width: none;\n    padding: 0;\n  }\n  .TypMark-math-block {\n    overflow: visible;\n  }\n  .TypMark-math-block .typst-doc {\n    display: block;\n    max-width: 100% !important;\n    width: auto !important;\n    height: auto !important;\n    margin: 0 auto;\n  }\n  * {\n    box-sizing: border-box;\n  }\n}\n";

/// The page margin in the print stylesheet: the four lengths, or `0` when none is given.
pub open spec fn margin_text(margin: Option<&PdfMargin>) -> Seq<u8> {
    match margin {
        Some(m) => encode_utf8(m.top@) + " ".spec_bytes() + encode_utf8(m.right@) + " ".spec_bytes()
            + encode_utf8(m.bottom@) + " ".spec_bytes() + encode_utf8(m.left@),
        None => "0".spec_bytes(),
    }
}

/// The print stylesheet of PDF export.
pub open spec fn pdf_css_spec(margin: Option<&PdfMargin>) -> Seq<u8> {
    PDF_CSS_HEAD.spec_bytes() + margin_text(margin) + PDF_CSS_TAIL.spec_bytes()
}

/// The print stylesheet of PDF export: light colors, the page margin (`0` when none is
/// given) and print rules for the body and math blocks.
pub fn pdf_extra_css(margin: Option<&PdfMargin>) -> (r: String)
    ensures
        r@ == decode_utf8(pdf_css_spec(margin)),
{
    let mut out: Vec<u8> = Vec::new();
    push_str(&mut out, PDF_CSS_HEAD);
    let ghost o = out@;
    match margin {
        Some(m) => {
            push_all(&mut out, string_bytes(&m.top));
            push_str(&mut out, " ");
            push_all(&mut out, string_bytes(&m.right));
            push_str(&mut out, " ");
            push_all(&mut out, string_bytes(&m.bottom));
            push_str(&mut out, " ");
            push_all(&mut out, string_bytes(&m.left));
        },
        None => push_str(&mut out, "0"),
    }
    assert(out@ =~= o + margin_text(margin));
    push_str(&mut out, PDF_CSS_TAIL);
    proof {
        lemma_str_valid(PDF_CSS_HEAD);
        lemma_str_valid(PDF_CSS_TAIL);
        lemma_str_valid(" ");
        lemma_str_valid("0");
        if let Some(m) = margin {
            vstd::utf8::encode_utf8_valid_utf8(m.top@);
            vstd::utf8::encode_utf8_valid_utf8(m.right@);
            vstd::utf8::encode_utf8_valid_utf8(m.bottom@);
            vstd::utf8::encode_utf8_valid_utf8(m.left@);
            let sp = " ".spec_bytes();
            lemma_cat(encode_utf8(m.top@), sp);
            lemma_cat(encode_utf8(m.top@) + sp, encode_utf8(m.right@));
            lemma_cat(encode_utf8(m.top@) + sp + encode_utf8(m.right@), sp);
            lemma_cat(encode_utf8(m.top@) + sp + encode_utf8(m.right@) + sp, encode_utf8(m.bottom@));
            lemma_cat(encode_utf8(m.top@) + sp + encode_utf8(m.right@) + sp + encode_utf8(m.bottom@), sp);
            lemma_cat(
                encode_utf8(m.top@) + sp + encode_utf8(m.right@) + sp + encode_utf8(m.bottom@) + sp,
                encode_utf8(m.left@),
            );
        }
        lemma_cat(PDF_CSS_HEAD.spec_bytes(), margin_text(margin));
        lemma_cat(PDF_CSS_HEAD.spec_bytes() + margin_text(margin), PDF_CSS_TAIL.spec_bytes());
    }
    string_from_bytes(out.as_slice())
}

/// The program that a PDF export runs.
#[derive(Clone, Copy, Debug, PartialEq, Eq, Structural)]
pub enum PdfProgram {
    Chromium,
    Wkhtmltopdf,
}

/// The program for a backend, given which programs were found: the one asked for, or for
/// `Auto` Chromium when found, else wkhtmltopdf; an error naming what is missing otherwise.
pub fn choose_pdf_program(backend: PdfBackend, has_chromium: bool, has_wkhtmltopdf: bool) -> (r: Result<
    PdfProgram,
    String,
>)
    ensures
        backend == PdfBackend::Chromium ==> (if has_chromium {
            r == Ok::<PdfProgram, String>(PdfProgram::Chromium)
        } else {
            r matches Err(e) && e@ == "chromium backend not found in PATH"@
        }),
        backend == PdfBackend::Wkhtmltopdf ==> (if has_wkhtmltopdf {
            r == Ok::<PdfProgram, String>(PdfProgram::Wkhtmltopdf)
        } else {
            r matches Err(e) && e@ == "wkhtmltopdf backend not found in PATH"@
        }),
        backend == PdfBackend::Auto ==> (if has_chromium {
            r == Ok::<PdfProgram, String>(PdfProgram::Chromium)
        } else if has_wkhtmltopdf {
            r == Ok::<PdfProgram, String>(PdfProgram::Wkhtmltopdf)
        } else {
            r matches Err(e) && e@
                == "no PDF backend found in PATH (chromium or wkhtmltopdf). Install one and retry."@
        }),
{
    match backend {
        PdfBackend::Chromium => if has_chromium {
            Ok(PdfProgram::Chromium)
        } else {
            Err("chromium backend not found in PATH".to_owned())
        },
        PdfBackend::Wkhtmltopdf => if has_wkhtmltopdf {
            Ok(PdfProgram::Wkhtmltopdf)
        } else {
            Err("wkhtmltopdf backend not found in PATH".to_owned())
        },
        PdfBackend::Auto => if has_chromium {
            Ok(PdfProgram::Chromium)
        } else if has_wkhtmltopdf {
            Ok(PdfProgram::Wkhtmltopdf)
        } else {
            Err("no PDF backend found in PATH (chromium or wkhtmltopdf). Install one and retry.".to_owned())
        },
    }
}

/// Whether Chromium would ignore some options (page size, margin, scale).
pub fn chromium_ignores_options(options: &PdfOptions) -> (r: bool)
    ensures
        r == (options.page is Some || options.margin is Some || options.scale is Some),
{
    options.page.is_some() || options.margin.is_some() || options.scale.is_some()
}

/// The views of a list of strings.
pub open spec fn views(v: Seq<String>) -> Seq<Seq<char>> {
    v.map_values(|s: String| s@)
}

/// The arguments of wkhtmltopdf: quiet, local files allowed, the page size when set, zero
/// margins, the zoom when a scale is set, then the input and output paths.
pub open spec fn wkhtmltopdf_args_spec(page: Option<String>, scale: Option<String>, input: Seq<char>, output: Seq<char>) -> Seq<Seq<char>> {
    seq!["--quiet"@, "--enable-local-file-access"@] + (match page {
        Some(p) => seq!["--page-size"@, p@],
        None => Seq::empty(),
    }) + seq![
        "--margin-top"@, "0"@, "--margin-right"@, "0"@, "--margin-bottom"@, "0"@, "--margin-left"@, "0"@,
    ] + (match scale {
        Some(z) => seq!["--zoom"@, z@],
        None => Seq::empty(),
    }) + seq![input, output]
}

pub fn wkhtmltopdf_args(options: &PdfOptions, input: &str, output: &str) -> (r: Vec<String>)
    ensures
        views(r@) == wkhtmltopdf_args_spec(options.page, options.scale, input@, output@),
{
    let mut args: Vec<String> = Vec::new();
    args.push("--quiet".to_owned());
    args.push("--enable-local-file-access".to_owned());
    if let Some(p) = &options.page {
        args.push("--page-size".to_owned());
        args.push(p.clone());
    }
    args.push("--margin-top".to_owned());
    args.push("0".to_owned());
    args.push("--margin-right".to_owned());
    args.push("0".to_owned());
    args.push("--margin-bottom".to_owned());
    args.push("0".to_owned());
    args.push("--margin-left".to_owned());
    args.push("0".to_owned());
    if let Some(z) = &options.scale {
        args.push("--zoom".to_owned());
        args.push(z.clone());
    }
    args.push(input.to_owned());
    args.push(output.to_owned());
    assert(views(args@) =~= wkhtmltopdf_args_spec(options.page, options.scale, input@, output@));
    args
}

/// The arguments of headless Chromium printing a page to a PDF file.
pub open spec fn chromium_args_spec(page_url: Seq<char>, output: Seq<char>) -> Seq<Seq<char>> {
    seq![
        "--headless"@, "--disable-gpu"@, "--allow-file-access-from-files"@, "--print-to-pdf-no-header"@,
        "--no-pdf-header-footer"@, "--print-to-pdf="@ + output, page_url,
    ]
}

pub fn chromium_args(page_url: &str, output: &str) -> (r: Vec<String>)
    ensures
        views(r@) == chromium_args_spec(page_url@, output@),
{
    let mut args: Vec<String> = Vec::new();
    args.push("--headless".to_owned());
    args.push("--disable-gpu".to_owned());
    args.push("--allow-file-access-from-files".to_owned());
    args.push("--print-to-pdf-no-header".to_owned());
    args.push("--no-pdf-header-footer".to_owned());
    let mut flag: Vec<u8> = Vec::new();
    push_str(&mut flag, "--print-to-pdf=");
    push_str(&mut flag, output);
    proof {
        lemma_str_valid("--print-to-pdf=");
        lemma_str_valid(output);
        lemma_cat("--print-to-pdf=".spec_bytes(), output.spec_bytes());
        vstd::utf8::encode_utf8_decode_utf8("--print-to-pdf="@ + output@);
        assert(encode_utf8("--print-to-pdf="@ + output@) == "--print-to-pdf=".spec_bytes() + output.spec_bytes()) by {
            lemma_encode_concat("--print-to-pdf="@, output@);
        }
    }
    args.push(string_from_bytes(flag.as_slice()));
    args.push(page_url.to_owned());
    assert(views(args@) =~= chromium_args_spec(page_url@, output@));
    args
}


/// A byte that a file URL keeps as it is: a letter, a digit, `-`, `_`, `.`, `~` or `/`.
pub open spec fn url_keeps(b: u8) -> bool {
    (48 <= b <= 57) || (65 <= b <= 90) || (97 <= b <= 122) || b == 45u8 || b == 95u8 || b == 46u8
        || b == 126u8 || b == 47u8
}

/// A byte of a file URL's path: kept, or `%` and two upper-case hexadecimal digits.
pub open spec fn url_path_byte(b: u8) -> Seq<u8> {
    if url_keeps(b) {
        seq![b]
    } else {
        seq![37u8, crate::emit::hex_digit(b / 16), crate::emit::hex_digit(b % 16)]
    }
}

pub open spec fn url_path_encoded(s: Seq<u8>) -> Seq<u8>
    decreases s.len(),
{
    if s.len() == 0 {
        Seq::empty()
    } else {
        url_path_encoded(s.drop_last()) + url_path_byte(s.last())
    }
}

/// A path with backslashes turned into slashes and a slash in front when there is none.
pub open spec fn rooted_path(s: Seq<u8>) -> Seq<u8> {
    let t = s.map_values(|b: u8| if b == 92u8 { 47u8 } else { b });
    if t.len() > 0 && t[0] == 47u8 {
        t
    } else {
        seq![47u8] + t
    }
}

/// `file://`.
pub open spec fn file_scheme() -> Seq<u8> {
    seq![102u8, 105u8, 108u8, 101u8, 58u8, 47u8, 47u8]
}

/// The `file://` URL of an absolute path, ending in a slash for a directory.
pub open spec fn file_url_spec(path: Seq<u8>, dir: bool) -> Seq<u8> {
    let u = file_scheme() + url_path_encoded(rooted_path(path));
    if dir && (u.len() == 0 || u.last() != 47u8) {
        u + seq![47u8]
    } else {
        u
    }
}

fn hex_upper(n: u8) -> (r: u8)
    requires
        n < 16,
    ensures
        r == crate::emit::hex_digit(n),
        r < 128,
{
    if n < 10 {
        48u8 + n
    } else {
        55u8 + n
    }
}

/// The `file://` URL of an absolute path (for a directory, ending in a slash).
pub fn file_url(path: &str, dir: bool) -> (r: String)
    ensures
        r@ == decode_utf8(file_url_spec(path.spec_bytes(), dir)),
{
    let p = path.as_bytes();
    let ghost rooted = rooted_path(p@);
    let mut norm: Vec<u8> = Vec::new();
    let mut k: usize = 0;
    while k < p.len()
        invariant
            k <= p@.len(),
            norm@ == p@.take(k as int).map_values(|b: u8| if b == 92u8 { 47u8 } else { b }),
        decreases p.len() - k,
    {
        let b = p[k];
        norm.push(if b == 92u8 { 47u8 } else { b });
        proof {
            assert(p@.take(k + 1) == p@.take(k as int).push(b));
            assert(p@.take(k + 1).map_values(|b: u8| if b == 92u8 { 47u8 } else { b }) =~= p@.take(
                k as int,
            ).map_values(|b: u8| if b == 92u8 { 47u8 } else { b }).push(if b == 92u8 { 47u8 } else { b }));
        }
        k = k + 1;
    }
    proof {
        assert(p@.take(p@.len() as int) == p@);
    }
    if norm.len() == 0 || norm[0] != 47u8 {
        norm.insert(0, 47u8);
    }
    assert(norm@ =~= rooted);
    let mut out: Vec<u8> = vec![102u8, 105u8, 108u8, 101u8, 58u8, 47u8, 47u8];
    let ghost head = out@;
    assert(head == file_scheme());
    let mut i: usize = 0;
    while i < norm.len()
        invariant
            i <= norm@.len(),
            out@ == head + url_path_encoded(norm@.take(i as int)),
            forall|j: int| 0 <= j < out@.len() ==> out@[j] < 128,
        decreases norm.len() - i,
    {
        let b = norm[i];
        proof {
            assert(norm@.take(i + 1).drop_last() == norm@.take(i as int));
        }
        if (48u8 <= b && b <= 57u8) || (65u8 <= b && b <= 90u8) || (97u8 <= b && b <= 122u8) || b == 45u8
            || b == 95u8 || b == 46u8 || b == 126u8 || b == 47u8 {
            out.push(b);
        } else {
            out.push(37u8);
            out.push(hex_upper(b / 16));
            out.push(hex_upper(b % 16));
        }
        i = i + 1;
    }
    proof {
        assert(norm@.take(norm@.len() as int) == norm@);
    }
    let ghost u = out@;
    assert(u == file_scheme() + url_path_encoded(rooted_path(p@)));
    if dir && (out.len() == 0 || out[out.len() - 1] != 47u8) {
        out.push(47u8);
    }
    assert(out@ == file_url_spec(p@, dir));
    proof {
        crate::text::lemma_ascii_valid(out@);
    }
    string_from_bytes(out.as_slice())
}
/// Where a PDF's relative links resolve: no base; a `file://` URL; a directory (absolute, or
/// relative to the input's directory); or the input's own directory.
#[derive(Clone, Debug, PartialEq, Eq)]
pub enum PdfBase {
    Off,
    Url(String),
    Dir(String),
    Input,
}

/// The trimmed text of a `pdf-base` setting, as bytes.
pub open spec fn base_text(base: Seq<char>) -> Seq<u8> {
    trimmed(encode_utf8(base))
}

/// Reads the `pdf-base` setting: without one, the input's directory; a blank one, no base; a
/// remote (`http://`, `https://`) URL is refused; a `file://` URL is kept, with a slash at
/// its end; anything else names a directory.
pub fn pdf_base_choice(base: Option<&str>) -> (r: Result<PdfBase, String>)
    ensures
        base is None ==> r == Ok::<PdfBase, String>(PdfBase::Input),
        base matches Some(b) ==> ({
            let t = base_text(b@);
            if t.len() == 0 {
                r == Ok::<PdfBase, String>(PdfBase::Off)
            } else if starts_at(t, 0, "http://".spec_bytes()) || starts_at(t, 0, "https://".spec_bytes()) {
                r matches Err(e) && e@ == "pdf-base does not allow remote URLs"@
            } else if starts_at(t, 0, "file://".spec_bytes()) {
                r matches Ok(PdfBase::Url(u)) && u@ == lossy_decode(if t.last() == 47u8 { t } else { t.push(47u8) })
            } else {
                r matches Ok(PdfBase::Dir(d)) && d@ == lossy_decode(t)
            }
        }),
{
    let b = match base {
        Some(b) => b,
        None => return Ok(PdfBase::Input),
    };
    let raw = b.as_bytes();
    let (x, y) = trim_range(raw, 0, raw.len());
    proof {
        assert(trimmed(raw@) =~= raw@.subrange(x as int, y as int));
    }
    let t = copy_range(raw, x, y);
    if t.len() == 0 {
        return Ok(PdfBase::Off);
    }
    if bytes_start_with(t.as_slice(), 0, "http://".as_bytes()) || bytes_start_with(t.as_slice(), 0, "https://".as_bytes()) {
        return Err("pdf-base does not allow remote URLs".to_string());
    }
    if bytes_start_with(t.as_slice(), 0, "file://".as_bytes()) {
        let mut url = t;
        if url[url.len() - 1] != 47u8 {
            url.push(47u8);
        }
        return Ok(PdfBase::Url(string_from_bytes(url.as_slice())));
    }
    Ok(PdfBase::Dir(string_from_bytes(t.as_slice())))
}

} // verus!
