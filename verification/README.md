# Morph

Morph converts documents between markup formats: Markdown, AsciiDoc,
reStructuredText, Typst, LaTeX, Djot, Org mode, Textile, HTML and DocBook.
Every reader builds the same document model (`ast`), and every writer renders
it, so any format can be converted into any other.

The library is written in Verus. Its functions carry contracts that Verus
proves; among them:

- each writer's output is stated exactly, as a function of the document
  (`written_text` in `lib.rs`), tables with spanning cells included (the
  Markdown grid of `md_span_table`, the reStructuredText grid table of
  `grid_text`), and always ends with exactly one newline;
- the Markdown and LaTeX inline readers are stated exactly (`md_model`,
  `latex_inline_model`): emphasis and its nesting, strikethrough, sub- and
  superscript, code spans, links and images, escapes and line breaks; so is
  the content of a LaTeX table cell, and the inline syntax that the Markdown
  writer gives a word reads back as that inline;
- the reStructuredText grid-table reader is stated exactly (`grid_model`):
  its columns, header and data rows, each cell's text and spans;
- every line reader reads one line of letters, digits and spaces as one
  paragraph holding that line, and empty input as an empty document; the
  Markdown and Typst readers read such a line after one to six `#` (in
  Typst `=`) and a space as a heading of that level; a paragraph of such a
  line written in any line format, and such a heading written in Markdown or
  Typst, read back as themselves; the
  readers state where each code block, directive, link and image ends, its
  URL and title, how plain text is read, and which errors they can report;
  the rest of the block structure that a reader builds is not stated;
- the strict HTML and DocBook readers refuse any element outside their
  fixed sets, at the top level, in a paragraph or heading and inside inline
  emphasis, and refuse text outside elements;
- `convert`, and each conversion of the web API, is `parse` followed by
  `emit`: whatever `parse` is stated to read, the output is the writing of
  that document, or the reader's own error;
- the AsciiDoc span prefix of a table cell reads back as the cell's spans,
  and text escaped by the LaTeX, Djot, Org and Textile writers reads back as
  itself;
- decoding XML character references undoes escaping, and escaped text reads
  back as itself;
- document equality is an equivalence, and the preservation report of a
  conversion explains its status by the features whose counts changed;
- the command line and the web API validate their input exactly as stated.

## Layout

- `src/lib.rs`: `parse`, `emit` and `convert`.
- `src/ast.rs`, `src/format.rs`, `src/error.rs`: the document model, the
  formats and their names, and the errors.
- `src/formats/`: one reader and one writer per format; `lightweight.rs`
  serves Djot, Org mode and Textile, `strict_xml.rs` HTML and DocBook.
- `src/preservation.rs`, `src/equality.rs`: feature inventories and the
  comparison of a document with its reading back.
- `src/cli.rs`, `src/web.rs`: the decisions of the command line and of the
  web API.
- `src/text.rs`, `src/std_calls.rs`: text helpers, and the few standard
  library functions the library relies on with stated contracts.
- `app/`: the command-line program and the Cloudflare Worker around the
  library.
- `tests/`: the test suite.
