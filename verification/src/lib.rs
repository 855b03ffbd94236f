//! Conversion between markup formats through one shared document model:
//! each format's reader builds a `Document`, each writer renders one.
use vstd::prelude::*;

pub mod ast;
pub mod cli;
pub mod equality;
pub mod error;
pub mod format;
pub mod formats;
pub mod preservation;
pub mod std_calls;
pub mod text;
pub mod web;

use ast::{Block, Document};
use error::{ConvertError, EmitError, ParseError};
use format::{Emitter, Format, Parser};
use formats::asciidoc::emitter::adoc_blocks;
use formats::common::{error_is, ends_with_single_newline, finished};
use formats::html::parser::blank_html_text;
use formats::common::{line_body, one_plain_line, plain_line, plain_paragraph};
use formats::markdown::parser::{atx_line, atx_text, list_starting_at, numbered_item_line, numbered_item_text};
use formats::typst::parser::{eq_heading_line, eq_heading_text};
use formats::latex::parser::{heading_of_level, latex_heading_line, latex_heading_text};
use formats::rst::parser::{headings_of_levels, second_level, two_headings};
use formats::common::plain_heading;
use formats::strict_xml::no_tag_from;
use formats::docbook::emitter::docbook_document;
use formats::html::emitter::html_blocks;
use formats::latex::emitter::latex_blocks;
use formats::lightweight::{blocks_text, Flavor};
use formats::markdown::emitter::md_blocks;
use formats::rst::emitter::rst_blocks;
use formats::typst::emitter::typst_blocks;

verus! {

/// The detail of the error that the reader of `format` reports where it makes
/// no progress at a block, for the readers that fail in no other way: the
/// Markdown, AsciiDoc, reStructuredText, Typst and LaTeX readers.
pub open spec fn stall_detail_of(format: Format) -> Option<Seq<char>> {
    match format {
        Format::Markdown => Some(formats::markdown::parser::stall_detail()),
        Format::AsciiDoc => Some(formats::asciidoc::parser::stall_detail()),
        Format::Rst => Some(formats::rst::parser::stall_detail()),
        Format::Typst => Some(formats::typst::parser::stall_detail()),
        Format::Latex => Some(formats::latex::parser::stall_detail()),
        _ => None,
    }
}

/// An error that reading `format` may report: for the readers named by
/// `stall_detail_of`, only the one where reading makes no progress.
pub open spec fn error_allowed(format: Format, e: ParseError) -> bool {
    match stall_detail_of(format) {
        Some(m) => error_is(e, m),
        None => true,
    }
}

/// Whether the reader of `format` reads lines: every reader but those of HTML
/// and DocBook, which read XML.
pub open spec fn reads_lines(format: Format) -> bool {
    !(format is Html || format is DocBook)
}

/// What is stated of reading `input` in `format` with result `r`: a line
/// reader reads empty input as an empty document, and one line of ASCII
/// letters, digits and spaces (see `plain_line`) as one paragraph that holds
/// that line as its one text; the Markdown and Typst readers read one line of
/// one to six `#` (in Typst `=`), a space and such a line as a heading of
/// that level holding the line as its one text (see `atx_text` and
/// `eq_heading_text`); the Markdown reader reads one item line numbered `n`
/// as an ordered list that starts at `n` (see `numbered_item_text`); the
/// LaTeX reader reads a sectioning command of level `k` around such a line
/// as a heading of level `k` (see `latex_heading_text`); the
/// reStructuredText reader gives two underlined headings levels in the order
/// their adornments are met (see `two_headings`); the
/// Markdown, AsciiDoc,
/// reStructuredText, Typst and LaTeX readers fail only where they make no
/// progress at a block; a text without tags is refused by the DocBook reader
/// and, unless it decodes to whitespace only (an empty document), by the HTML
/// reader.
pub open spec fn reading_allows(input: Seq<char>, format: Format, r: Result<Document, ParseError>) -> bool {
    &&& r matches Err(e) ==> error_allowed(format, e)
    &&& reads_lines(format) && input.len() == 0 ==> (r matches Ok(d) && d.children@.len() == 0)
    &&& format is Html && no_tag_from(input, 0) ==> (r is Ok <==> blank_html_text(input))
    &&& format is Html && no_tag_from(input, 0) ==> (r matches Ok(d) ==> d.children@.len() == 0)
    &&& format is DocBook && no_tag_from(input, 0) ==> r is Err
    &&& reads_lines(format) && one_plain_line(input) ==> (r matches Ok(d) && plain_paragraph(d.children@, line_body(input)))
    &&& format is Markdown ==> forall|k: nat, l: Seq<char>| #[trigger] atx_text(input, k, l) ==> (r matches Ok(d)
        && plain_heading(d.children@, k, l))
    &&& format is Typst ==> forall|k: nat, l: Seq<char>| #[trigger] eq_heading_text(input, k, l) ==> (r matches Ok(d)
        && plain_heading(d.children@, k, l))
    &&& format is Markdown ==> forall|n: nat, l: Seq<char>| #[trigger] numbered_item_text(input, n, l) ==> (r matches Ok(
        d,
    ) && list_starting_at(d.children@, n))
    &&& format is Latex ==> forall|k: u8, l: Seq<char>| #[trigger] latex_heading_text(input, k, l) ==> (r matches Ok(d)
        && heading_of_level(d.children@, k))
    &&& format is Rst ==> forall|c1: char, c2: char| #[trigger] two_headings(crate::text::lines_spec(input), c1, c2)
        ==> (r matches Ok(d) && headings_of_levels(d.children@, 1, second_level(c1, c2)))
}

/// Reads `input` in the `format` given.
pub fn parse(input: &str, format: Format) -> (r: Result<Document, ParseError>)
    ensures
        reading_allows(input@, format, r),
{
    match format {
        Format::Markdown => formats::markdown::MarkdownParser.parse(input),
        Format::AsciiDoc => formats::asciidoc::AsciiDocParser.parse(input),
        Format::Rst => formats::rst::RstParser.parse(input),
        Format::Typst => formats::typst::TypstParser.parse(input),
        Format::Latex => formats::latex::LatexParser.parse(input),
        Format::Djot => formats::djot::DjotParser.parse(input),
        Format::Org => formats::org::OrgParser.parse(input),
        Format::Textile => formats::textile::TextileParser.parse(input),
        Format::Html => formats::html::HtmlParser.parse(input),
        Format::DocBook => formats::docbook::DocBookParser.parse(input),
    }
}

/// The text that the writer for `format` produces for `blocks`.
pub open spec fn written_text(blocks: Seq<Block>, format: Format) -> Seq<char> {
    match format {
        Format::Markdown => finished(md_blocks(seq![], seq![], blocks)),
        Format::AsciiDoc => finished(adoc_blocks(seq![], blocks, 0, 0)),
        Format::Rst => finished(rst_blocks(seq![], blocks)),
        Format::Typst => finished(typst_blocks(seq![], blocks)),
        Format::Latex => finished(latex_blocks(seq![], blocks)),
        Format::Djot => finished(blocks_text(seq![], blocks, Flavor::Djot)),
        Format::Org => finished(blocks_text(seq![], blocks, Flavor::Org)),
        Format::Textile => finished(blocks_text(seq![], blocks, Flavor::Textile)),
        Format::Html => finished(html_blocks(blocks)),
        Format::DocBook => docbook_document(blocks),
    }
}

/// Writes `doc` in the `format` given. Writing always succeeds, and the text
/// ends with exactly one newline.
pub fn emit(doc: &Document, format: Format) -> (r: Result<String, EmitError>)
    ensures
        r matches Ok(s) && ends_with_single_newline(s@),
        r matches Ok(s) && s@ == written_text(doc.children@, format),
{
    match format {
        Format::Markdown => formats::markdown::MarkdownEmitter.emit(doc),
        Format::AsciiDoc => formats::asciidoc::AsciiDocEmitter.emit(doc),
        Format::Rst => formats::rst::RstEmitter.emit(doc),
        Format::Typst => formats::typst::TypstEmitter.emit(doc),
        Format::Latex => formats::latex::LatexEmitter.emit(doc),
        Format::Djot => formats::djot::DjotEmitter.emit(doc),
        Format::Org => formats::org::OrgEmitter.emit(doc),
        Format::Textile => formats::textile::TextileEmitter.emit(doc),
        Format::Html => formats::html::HtmlEmitter.emit(doc),
        Format::DocBook => formats::docbook::DocBookEmitter.emit(doc),
    }
}

/// Whether `r` is what converting gives when reading gave `p`: the writing
/// of the document read in `to`, or the reader's own error.
pub open spec fn converted_from(p: Result<Document, ParseError>, to: Format, r: Result<String, ConvertError>) -> bool {
    match p {
        Ok(d) => r matches Ok(s) && s@ == written_text(d.children@, to),
        Err(e) => r == Err::<String, ConvertError>(ConvertError::Parse(e)),
    }
}

/// Reads `input` in `from` and writes it in `to`: the result is what `parse`
/// gives, written by `emit`. It fails exactly when reading fails, with that
/// error, and the text ends with exactly one newline.
pub fn convert(input: &str, from: Format, to: Format) -> (r: Result<String, ConvertError>)
    ensures
        exists|p: Result<Document, ParseError>| #[trigger] reading_allows(input@, from, p) && converted_from(p, to, r),
        r matches Ok(s) ==> ends_with_single_newline(s@),
        !(r matches Err(ConvertError::Emit(_))),
{
    let p = parse(input, from);
    let ghost pg = p;
    let doc = match p {
        Ok(d) => d,
        Err(e) => {
            let r = Err(ConvertError::Parse(e));
            assert(reading_allows(input@, from, pg) && converted_from(pg, to, r));
            return r;
        },
    };
    match emit(&doc, to) {
        Ok(s) => {
            let r = Ok(s);
            assert(reading_allows(input@, from, pg) && converted_from(pg, to, r));
            r
        },
        Err(e) => Err(ConvertError::Emit(e)),
    }
}

/// The text that writing ends with: `l` and one newline, where `l` does not
/// end with a newline.
proof fn lemma_finished_line(l: Seq<char>)
    requires
        l.len() > 0,
        l.last() != '\n',
    ensures
        finished(l.push('\n')) == l.push('\n'),
{
    assert(l.push('\n').drop_last() =~= l);
    assert(crate::text::trim_end_char_spec(l, '\n') == l);
}

/// What the writer of each line format gives for a paragraph of one plain
/// line: the line and a newline.
proof fn lemma_plain_paragraph_written(blocks: Seq<Block>, l: Seq<char>, format: Format)
    requires
        plain_line(l),
        plain_paragraph(blocks, l),
        reads_lines(format),
    ensures
        written_text(blocks, format) == l.push('\n'),
{
    let b = blocks[0];
    let c = match b {
        Block::Paragraph { content } => content@,
        _ => Seq::empty(),
    };
    assert(blocks.drop_last() =~= Seq::<Block>::empty());
    assert(c.drop_last() =~= Seq::<ast::Inline>::empty());
    assert(blocks.last() == b);
    assert(c.last() == c[0]);
    lemma_finished_line(l);
    if format is Markdown {
        assert(formats::markdown::emitter::md_inlines(c.drop_last()) == Seq::<char>::empty());
        assert(formats::markdown::emitter::md_inline(c[0]) == l);
        assert(formats::markdown::emitter::md_inlines(c) =~= l);
        assert(formats::markdown::emitter::md_body(seq![], b) =~= l.push('\n'));
        assert(md_blocks(seq![], seq![], blocks.drop_last()) == Seq::<char>::empty());
        assert(md_blocks(seq![], seq![], blocks) =~= l.push('\n'));
    } else if format is Djot || format is Org || format is Textile {
        let fl = if format is Djot {
            Flavor::Djot
        } else if format is Org {
            Flavor::Org
        } else {
            Flavor::Textile
        };
        formats::lightweight::lemma_escape_plain(l, fl);
        assert(formats::lightweight::inlines_text(c.drop_last(), fl) == Seq::<char>::empty());
        assert(formats::lightweight::inline_text(c[0], fl) == l);
        assert(formats::lightweight::inlines_text(c, fl) =~= l);
        assert(formats::lightweight::block_text(seq![], b, fl) =~= l.push('\n'));
        assert(blocks_text(seq![], blocks.drop_last(), fl) == Seq::<char>::empty());
        assert(blocks_text(seq![], blocks, fl) =~= l.push('\n'));
    } else if format is AsciiDoc {
        formats::asciidoc::emitter::lemma_typography_plain(l);
        assert(formats::asciidoc::emitter::adoc_inlines(seq![], c.drop_last(), c) == Seq::<char>::empty());
        assert(formats::asciidoc::emitter::adoc_inline(seq![], c[0], 0, c) =~= l);
        assert(formats::asciidoc::emitter::adoc_inlines(seq![], c, c) =~= l);
        assert(adoc_blocks(seq![], blocks.drop_last(), 0, 0) == Seq::<char>::empty());
        assert(formats::asciidoc::emitter::adoc_block(seq![], b, false, b, 0, 0) =~= l.push('\n'));
        assert(adoc_blocks(seq![], blocks, 0, 0) =~= l.push('\n'));
    } else if format is Latex {
        formats::latex::emitter::lemma_escape_plain(l);
        assert(formats::latex::emitter::latex_inlines(c.drop_last()) == Seq::<char>::empty());
        assert(formats::latex::emitter::latex_inline(c[0]) == l);
        assert(formats::latex::emitter::latex_inlines(c) =~= l);
        assert(formats::latex::emitter::latex_body(b) =~= l.push('\n'));
        assert(formats::latex::emitter::latex_block(seq![], b, false) =~= l.push('\n'));
        assert(latex_blocks(seq![], blocks.drop_last()) == Seq::<char>::empty());
        assert(latex_blocks(seq![], blocks) =~= l.push('\n'));
    } else if format is Rst {
        assert(formats::rst::emitter::rst_inlines(c.drop_last()) == Seq::<char>::empty());
        assert(formats::rst::emitter::rst_inline(c[0]) == l);
        assert(formats::rst::emitter::rst_inlines(c) =~= l);
        assert(formats::rst::emitter::rst_body(b) =~= l.push('\n'));
        assert(formats::rst::emitter::rst_block(seq![], b, false) =~= l.push('\n'));
        assert(rst_blocks(seq![], blocks.drop_last()) == Seq::<char>::empty());
        assert(rst_blocks(seq![], blocks) =~= l.push('\n'));
    } else {
        assert(formats::typst::emitter::typst_inlines(c.drop_last()) == Seq::<char>::empty());
        assert(formats::typst::emitter::typst_inline(c[0]) == l);
        assert(formats::typst::emitter::typst_inlines(c) =~= l);
        assert(formats::typst::emitter::typst_body(b) =~= l.push('\n'));
        assert(formats::typst::emitter::typst_block(seq![], b, false) =~= l.push('\n'));
        assert(typst_blocks(seq![], blocks.drop_last()) == Seq::<char>::empty());
        assert(typst_blocks(seq![], blocks) =~= l.push('\n'));
    }
}

/// A paragraph of one plain line, written by the writer of a line format and
/// read back by the reader of the same format, is read as that paragraph
/// again.
pub proof fn law_plain_paragraph_reads_back(
    blocks: Seq<Block>,
    l: Seq<char>,
    format: Format,
    r: Result<Document, ParseError>,
)
    requires
        plain_line(l),
        plain_paragraph(blocks, l),
        reads_lines(format),
        reading_allows(written_text(blocks, format), format, r),
    ensures
        r matches Ok(d) && plain_paragraph(d.children@, l),
{
    lemma_plain_paragraph_written(blocks, l, format);
    let w = l.push('\n');
    assert(w.drop_last() =~= l);
    assert(one_plain_line(w));
    assert(line_body(w) == l);
}

/// A heading of one plain line, of level one to six, written by the Markdown
/// or Typst writer and read back by the reader of the same format, is read as
/// that heading again.
pub proof fn law_plain_heading_reads_back(
    blocks: Seq<Block>,
    k: nat,
    l: Seq<char>,
    format: Format,
    r: Result<Document, ParseError>,
)
    requires
        1 <= k <= 6,
        plain_line(l),
        plain_heading(blocks, k, l),
        format is Markdown || format is Typst,
        reading_allows(written_text(blocks, format), format, r),
    ensures
        r matches Ok(d) && plain_heading(d.children@, k, l),
{
    reveal_strlit(" ");
    let b = blocks[0];
    let c = match b {
        Block::Heading { content, .. } => content@,
        _ => Seq::empty(),
    };
    assert(blocks.drop_last() =~= Seq::<Block>::empty());
    assert(c.drop_last() =~= Seq::<ast::Inline>::empty());
    assert(blocks.last() == b);
    assert(c.last() == c[0]);
    if format is Markdown {
        assert(formats::markdown::emitter::md_inlines(c.drop_last()) == Seq::<char>::empty());
        assert(formats::markdown::emitter::md_inline(c[0]) == l);
        assert(formats::markdown::emitter::md_inlines(c) =~= l);
        let h = crate::text::repeat_spec('#', k) + seq![' '] + l;
        assert(formats::markdown::emitter::md_body(seq![], b) =~= h.push('\n'));
        assert(md_blocks(seq![], seq![], blocks.drop_last()) == Seq::<char>::empty());
        assert(md_blocks(seq![], seq![], blocks) =~= h.push('\n'));
        assert(h.len() > 0 && h.last() == l.last());
        lemma_finished_line(h);
        assert(written_text(blocks, Format::Markdown) == h.push('\n'));
        assert(atx_line(h, k, l));
        assert(h.push('\n').drop_last() =~= h);
        assert(atx_text(h.push('\n'), k, l));
    } else {
        assert(formats::typst::emitter::typst_inlines(c.drop_last()) == Seq::<char>::empty());
        assert(formats::typst::emitter::typst_inline(c[0]) == l);
        assert(formats::typst::emitter::typst_inlines(c) =~= l);
        let h = crate::text::repeat_spec('=', k) + seq![' '] + l;
        assert(formats::typst::emitter::typst_body(b) =~= h.push('\n'));
        assert(formats::typst::emitter::typst_block(seq![], b, false) =~= h.push('\n'));
        assert(typst_blocks(seq![], blocks.drop_last()) == Seq::<char>::empty());
        assert(typst_blocks(seq![], blocks) =~= h.push('\n'));
        assert(h.len() > 0 && h.last() == l.last());
        lemma_finished_line(h);
        assert(written_text(blocks, Format::Typst) == h.push('\n'));
        assert(eq_heading_line(h, k, l));
        assert(h.push('\n').drop_last() =~= h);
        assert(eq_heading_text(h.push('\n'), k, l));
    }
}
/// The blocks are one ordered list that starts at `n` and holds one item,
/// a paragraph of the plain line `l`.
pub open spec fn one_item_list(blocks: Seq<Block>, n: nat, l: Seq<char>) -> bool {
    &&& blocks.len() == 1
    &&& blocks[0] matches Block::OrderedList { start, items } && start == n && items@.len() == 1 && plain_paragraph(
        items@[0].content@,
        l,
    )
}

/// An ordered list written by the Markdown writer and read back by the
/// Markdown reader starts where it started: its number survives the round
/// trip, whatever it is.
pub proof fn law_ordered_list_start_reads_back(blocks: Seq<Block>, n: nat, l: Seq<char>, r: Result<Document, ParseError>)
    requires
        n <= u32::MAX,
        plain_line(l),
        one_item_list(blocks, n, l),
        reading_allows(written_text(blocks, Format::Markdown), Format::Markdown, r),
    ensures
        r matches Ok(d) && list_starting_at(d.children@, n),
{
    reveal_strlit(". ");
    reveal_strlit("   ");
    let b = blocks[0];
    let items = match b {
        Block::OrderedList { items, .. } => items@,
        _ => Seq::empty(),
    };
    let c = items[0].content@;
    let p = c[0];
    let ic = match p {
        Block::Paragraph { content } => content@,
        _ => Seq::empty(),
    };
    assert(blocks.drop_last() =~= Seq::<Block>::empty());
    assert(blocks.last() == b);
    assert(items.drop_last() =~= Seq::<ast::ListItem>::empty());
    assert(items.last() == items[0]);
    assert(c.drop_last() =~= Seq::<Block>::empty());
    assert(c.last() == p);
    assert(ic.drop_last() =~= Seq::<ast::Inline>::empty());
    assert(ic.last() == ic[0]);
    assert(formats::markdown::emitter::md_inlines(ic.drop_last()) == Seq::<char>::empty());
    assert(formats::markdown::emitter::md_inline(ic[0]) == l);
    assert(formats::markdown::emitter::md_inlines(ic) =~= l);
    let marker = crate::text::decimal(formats::markdown::emitter::item_number(n as u32, 0) as nat) + ". "@;
    assert(formats::markdown::emitter::item_number(n as u32, 0) == n);
    let h = crate::text::decimal(n) + ". "@ + l;
    assert(formats::markdown::emitter::md_item(seq![], marker, "   "@, c.drop_last()) == Seq::<char>::empty());
    assert(formats::markdown::emitter::md_item_block(seq![], marker, "   "@, p, true) =~= h.push('\n'));
    assert(formats::markdown::emitter::md_item(seq![], marker, "   "@, c) =~= h.push('\n'));
    assert(formats::markdown::emitter::md_ordered(seq![], n as u32, items.drop_last()) == Seq::<char>::empty());
    assert(formats::markdown::emitter::md_ordered(seq![], n as u32, items) =~= h.push('\n'));
    assert(formats::markdown::emitter::md_body(seq![], b) =~= h.push('\n'));
    assert(md_blocks(seq![], seq![], blocks.drop_last()) == Seq::<char>::empty());
    assert(md_blocks(seq![], seq![], blocks) =~= h.push('\n'));
    assert(h.len() > 0 && h.last() == l.last());
    lemma_finished_line(h);
    assert(numbered_item_line(h, n, l));
    assert(h.push('\n').drop_last() =~= h);
    assert(numbered_item_text(h.push('\n'), n, l));
}

/// A heading of level one to five written by the LaTeX writer and read back
/// by the LaTeX reader has the level it had: `\section` is read as level one,
/// `\subsection` as two, `\subsubsection` as three, and so on.
pub proof fn law_latex_heading_level_reads_back(blocks: Seq<Block>, k: u8, l: Seq<char>, r: Result<Document, ParseError>)
    requires
        1 <= k <= 5,
        plain_line(l),
        plain_heading(blocks, k as nat, l),
        reading_allows(written_text(blocks, Format::Latex), Format::Latex, r),
    ensures
        r matches Ok(d) && heading_of_level(d.children@, k),
{
    reveal_strlit("\\");
    reveal_strlit("{");
    reveal_strlit("}");
    reveal_strlit("}\n");
    let b = blocks[0];
    let c = match b {
        Block::Heading { content, .. } => content@,
        _ => Seq::empty(),
    };
    assert(blocks.drop_last() =~= Seq::<Block>::empty());
    assert(c.drop_last() =~= Seq::<ast::Inline>::empty());
    assert(blocks.last() == b);
    assert(c.last() == c[0]);
    formats::latex::emitter::lemma_escape_plain(l);
    assert(formats::latex::emitter::latex_inlines(c.drop_last()) == Seq::<char>::empty());
    assert(formats::latex::emitter::latex_inline(c[0]) == l);
    assert(formats::latex::emitter::latex_inlines(c) =~= l);
    let h = "\\"@ + formats::latex::emitter::heading_command_spec(k) + "{"@ + l + "}"@;
    assert(formats::latex::emitter::latex_body(b) =~= h.push('\n'));
    assert(formats::latex::emitter::latex_block(seq![], b, false) =~= h.push('\n'));
    assert(latex_blocks(seq![], blocks.drop_last()) == Seq::<char>::empty());
    assert(latex_blocks(seq![], blocks) =~= h.push('\n'));
    assert(h.len() > 0 && h.last() == '}');
    lemma_finished_line(h);
    assert(latex_heading_line(h, k, l));
    assert(h.push('\n').drop_last() =~= h);
    assert(latex_heading_text(h.push('\n'), k, l));
}

/// In reStructuredText, heading levels follow the order in which adornments
/// are first met: the first heading is level one, and a second heading is
/// level one again when it repeats the first adornment and level two when
/// its adornment is new.
pub proof fn law_rst_heading_levels_follow_adornments(input: Seq<char>, c1: char, c2: char, r: Result<Document, ParseError>)
    requires
        two_headings(crate::text::lines_spec(input), c1, c2),
        reading_allows(input, Format::Rst, r),
    ensures
        r matches Ok(d) && headings_of_levels(d.children@, 1, if c1 == c2 { 1 } else { 2 }),
{
}

} // verus!
