# typmark

A TypMark processor as a Verus library: the source is parsed into a document (blocks,
inline nodes, attribute lists, diagnostics), resolved (link references, sections, labels and
`@` references), and emitted as HTML, with a stylesheet and page renderer, an HTML sanitizer
and syntax highlighting of code blocks.

Layout:

- `src/` — the verified library. Each public function carries a contract; `scan.rs`,
  `links.rs`, `html.rs`, `inline.rs`, `attrs.rs`, `table.rs` and `parser.rs` parse;
  `section.rs` and `resolver.rs` resolve; `emit.rs` and `block_html.rs` emit;
  `renderer.rs`, `sanitize.rs` and `highlight.rs` build pages; `math.rs` and `pdf.rs` prepare
  Typst math and PDF printing; `cli.rs` holds the command line's settings and messages.
- `tests/` — tests of the library.
- `app/` — the command line program: argument handling, file and standard input and output,
  rendering math with Typst (which needs its `World` trait and fonts) and printing PDFs with
  an outside program. The library decides what to render and what to run.

Writing a renderer's asset files (stylesheet and script) to disk is not part of the crate:
the library gives their text (`Renderer::stylesheet`, `BASE_JS`).
