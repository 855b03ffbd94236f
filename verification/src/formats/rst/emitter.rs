//! reStructuredText writer.
use vstd::prelude::*;

use crate::ast::{Block, DescriptionItem, Document, Inline, ListItem, TableCell};
use crate::error::EmitError;
use crate::format::Emitter;
use crate::formats::common::{empty_grid, grid_at, grid_mark, grid_view, grid_with, bool_grid, ends_with_single_newline, ensure_blank_line, finish_output, finished, grid_get, table_has_spans, table_spans, with_blank_line};
use crate::text::{byte_len, chars_of_string, copy, eq, lines, lines_spec, push_all, push_str, push_string, repeat, repeat_spec, skip, utf8_len, views};

verus! {

pub struct RstEmitter;

impl Emitter for RstEmitter {
    fn emit(&self, doc: &Document) -> (r: Result<String, EmitError>)
        ensures
            (r matches Ok(s) && s@ == finished(
                rst_blocks(seq![], doc.children@),
            )),
            r matches Ok(s) && ends_with_single_newline(s@),
    {
        Ok(emit_rst(&doc.children))
    }
}

/// Writes blocks as reStructuredText; the text ends with exactly one newline.
pub fn emit_rst(blocks: &Vec<Block>) -> (s: String)
    ensures
        s@ == finished(rst_blocks(seq![], blocks@)),
        ends_with_single_newline(s@),
{
    let mut out: Vec<char> = Vec::new();
    emit_blocks(&mut out, blocks);
    finish_output(&out)
}

/// The underline character of a heading of the given level.
pub(crate) fn underline_char(level: u8) -> (c: char)
    ensures
        c == (if level == 0 || level == 1 || level > 6 {
            '='
        } else if level == 2 {
            '-'
        } else if level == 3 {
            '~'
        } else if level == 4 {
            '"'
        } else if level == 5 {
            '^'
        } else {
            '\''
        }),
{
    if level == 2 {
        '-'
    } else if level == 3 {
        '~'
    } else if level == 4 {
        '"'
    } else if level == 5 {
        '^'
    } else if level == 6 {
        '\''
    } else {
        '='
    }
}

// ---------------------------------------------------------------------------
// The text written
// ---------------------------------------------------------------------------

/// The underline character of a heading level.
pub open spec fn underline_spec(level: u8) -> char {
    if level == 0 || level == 1 || level > 6 {
        '='
    } else if level == 2 {
        '-'
    } else if level == 3 {
        '~'
    } else if level == 4 {
        '"'
    } else if level == 5 {
        '^'
    } else {
        '\''
    }
}

/// How an inline node is written.
pub open spec fn rst_inline(x: Inline) -> Seq<char>
    decreases x, 0nat,
{
    match x {
        Inline::Text(t) => t@,
        Inline::Bold(c) => "**"@ + rst_inlines(c@) + "**"@,
        Inline::Italic(c) => "*"@ + rst_inlines(c@) + "*"@,
        Inline::BoldItalic(c) => "***"@ + rst_inlines(c@) + "***"@,
        Inline::Strikethrough(c) => "~~"@ + rst_inlines(c@) + "~~"@,
        Inline::Superscript(c) => "\\ :sup:`"@ + rst_inlines(c@) + "`\\ "@,
        Inline::Subscript(c) => "\\ :sub:`"@ + rst_inlines(c@) + "`\\ "@,
        Inline::InlineCode(code) => "``"@ + code@ + "``"@,
        Inline::Link { url, text, .. } => if rst_inlines(text@) == url@ {
            url@
        } else {
            "`"@ + rst_inlines(text@) + " <"@ + url@ + ">`_"@
        },
        Inline::Image { alt, .. } => "|"@ + rst_inlines(alt@) + "|"@,
        Inline::HardLineBreak => "\n| "@,
        Inline::SoftLineBreak => seq!['\n'],
        Inline::RawInline { content, .. } => content@,
    }
}

pub open spec fn rst_inlines(s: Seq<Inline>) -> Seq<char>
    decreases s, 1nat,
{
    if s.len() == 0 {
        seq![]
    } else {
        rst_inlines(s.drop_last()) + rst_inline(s.last())
    }
}

/// The UTF-8 length of a text, held in a `usize`.
pub open spec fn width_of(text: Seq<char>) -> int {
    if utf8_len(text) > usize::MAX {
        usize::MAX as int
    } else {
        utf8_len(text) as int
    }
}

/// Lines each behind `prefix` and ended by a newline; with `keep_empty`, an
/// empty line is left without the prefix.
pub open spec fn prefixed(prefix: Seq<char>, ls: Seq<Seq<char>>, keep_empty: bool) -> Seq<char>
    decreases ls.len(),
{
    if ls.len() == 0 {
        seq![]
    } else {
        prefixed(prefix, ls.drop_last(), keep_empty) + (if keep_empty && ls.last().len() == 0 {
            seq![]
        } else {
            prefix + ls.last()
        }) + seq!['\n']
    }
}

/// The column widths of a simple table: each header's width (at least
/// three), widened by the cells below it.
pub open spec fn simple_widths(headers: Seq<TableCell>, rows: Seq<Vec<TableCell>>) -> Seq<int>
    decreases rows.len(),
{
    if rows.len() == 0 {
        Seq::new(
            headers.len(),
            |c: int|
                {
                    let w = width_of(rst_inlines(headers[c].content@));
                    if w > 3 {
                        w
                    } else {
                        3
                    }
                },
        )
    } else {
        let w = simple_widths(headers, rows.drop_last());
        let row = rows.last()@;
        Seq::new(
            w.len(),
            |c: int|
                if c < row.len() && width_of(rst_inlines(row[c].content@)) > w[c] {
                    width_of(rst_inlines(row[c].content@))
                } else {
                    w[c]
                },
        )
    }
}

/// The border of a simple table: `=` under each column, two spaces between.
pub open spec fn border(widths: Seq<int>) -> Seq<char>
    decreases widths.len(),
{
    if widths.len() == 0 {
        seq![]
    } else {
        border(widths.drop_last()) + (if widths.len() > 1 {
            "  "@
        } else {
            seq![]
        }) + repeat_spec('=', widths.last() as nat)
    }
}

/// `text` padded with spaces to `width`.
pub open spec fn padded(text: Seq<char>, width: int) -> Seq<char> {
    text + repeat_spec(' ', if text.len() < width {
        (width - text.len()) as nat
    } else {
        0
    })
}

/// The cells of a simple-table row, padded to the column widths.
pub open spec fn simple_cells(cells: Seq<TableCell>, widths: Seq<int>) -> Seq<char>
    decreases cells.len(),
{
    if cells.len() == 0 {
        seq![]
    } else {
        let i = cells.len() - 1;
        simple_cells(cells.drop_last(), widths) + (if i > 0 {
            "  "@
        } else {
            seq![]
        }) + padded(
            rst_inlines(cells.last().content@),
            if i < widths.len() {
                widths[i]
            } else {
                3
            },
        )
    }
}

pub open spec fn simple_rows(rows: Seq<Vec<TableCell>>, widths: Seq<int>) -> Seq<char>
    decreases rows.len(),
{
    if rows.len() == 0 {
        seq![]
    } else {
        simple_rows(rows.drop_last(), widths) + simple_cells(rows.last()@, widths) + seq!['\n']
    }
}

/// A table without spans: a simple table.
pub open spec fn simple_table(headers: Seq<TableCell>, rows: Seq<Vec<TableCell>>) -> Seq<char> {
    let widths = simple_widths(headers, rows);
    border(widths) + seq!['\n'] + simple_cells(headers, widths) + seq!['\n'] + border(widths)
        + seq!['\n'] + simple_rows(rows, widths) + border(widths) + seq!['\n']
}

/// The paragraphs of one definition.
pub open spec fn rst_definition(blocks: Seq<Block>) -> Seq<char>
    decreases blocks.len(),
{
    if blocks.len() == 0 {
        seq![]
    } else {
        rst_definition(blocks.drop_last()) + match blocks.last() {
            Block::Paragraph { content } => "   "@ + rst_inlines(content@) + seq!['\n'],
            _ => seq![],
        }
    }
}

pub open spec fn rst_definitions(defs: Seq<Vec<Block>>) -> Seq<char>
    decreases defs.len(),
{
    if defs.len() == 0 {
        seq![]
    } else {
        rst_definitions(defs.drop_last()) + rst_definition(defs.last()@)
    }
}

pub open spec fn rst_descriptions(items: Seq<DescriptionItem>) -> Seq<char>
    decreases items.len(),
{
    if items.len() == 0 {
        seq![]
    } else {
        rst_descriptions(items.drop_last()) + (if items.len() > 1 {
            seq!['\n']
        } else {
            seq![]
        }) + rst_inlines(items.last().term@) + seq!['\n'] + rst_definitions(items.last().definitions@)
    }
}

/// Blocks written after `prev`: each block but the first follows a blank
/// line; empty paragraphs are left out.
pub open spec fn rst_blocks(prev: Seq<char>, s: Seq<Block>) -> Seq<char>
    decreases s, 4nat,
{
    if s.len() == 0 {
        prev
    } else {
        rst_block(rst_blocks(prev, s.drop_last()), s.last(), s.len() > 1)
    }
}

/// One block written after `prev`; `later` when blocks came before it.
pub open spec fn rst_block(prev: Seq<char>, b: Block, later: bool) -> Seq<char>
    decreases b, 3nat,
{
    if b matches Block::Paragraph { content } && content@.len() == 0 {
        prev
    } else {
        (if later {
            with_blank_line(prev)
        } else {
            prev
        }) + rst_body(b)
    }
}

/// The text of a block.
pub open spec fn rst_body(b: Block) -> Seq<char>
    decreases b, 2nat,
{
    match b {
        Block::Heading { level, content } => {
            let text = rst_inlines(content@);
            let n = width_of(text);
            text + seq!['\n'] + repeat_spec(underline_spec(level), if n > 3 {
                n as nat
            } else {
                3
            }) + seq!['\n']
        },
        Block::Paragraph { content } => rst_inlines(content@) + seq!['\n'],
        Block::CodeBlock { language, content } => ".. code-block::"@ + (match language {
            Some(l) => " "@ + l@,
            None => seq![],
        }) + "\n\n"@ + prefixed("   "@, lines_spec(content@), false),
        Block::BlockQuote { children } => prefixed(
            "   "@,
            lines_spec(finished(rst_blocks(seq![], children@))),
            true,
        ),
        Block::UnorderedList { items } => rst_list(items@, false),
        Block::OrderedList { items, .. } => rst_list(items@, true),
        Block::DescriptionList { items } => rst_descriptions(items@),
        Block::Table { headers, alignments, rows } => if table_spans(headers@, rows@) {
            grid_text(headers@, rows@, alignments@.len() as int)
        } else {
            simple_table(headers@, rows@)
        },
        Block::HorizontalRule => "----\n"@,
        Block::RawBlock { content, .. } => content@ + seq!['\n'],
    }
}

/// A list: `#. ` items when `ordered`, else `* ` items.
pub open spec fn rst_list(items: Seq<ListItem>, ordered: bool) -> Seq<char>
    decreases items, 1nat,
{
    if items.len() == 0 {
        seq![]
    } else {
        rst_list(items.drop_last(), ordered) + rst_item(items.last().content@, ordered)
    }
}

/// The indentation of an item's later blocks.
pub open spec fn item_indent(ordered: bool) -> Seq<char> {
    if ordered {
        "   "@
    } else {
        "  "@
    }
}

/// A list item's blocks: the first paragraph after the marker, later ones
/// indented, nested lists indented line by line, other blocks as they are.
pub open spec fn rst_item(blocks: Seq<Block>, ordered: bool) -> Seq<char>
    decreases blocks, 0nat,
{
    if blocks.len() == 0 {
        seq![]
    } else {
        rst_item(blocks.drop_last(), ordered) + rst_item_block(
            blocks.last(),
            blocks.len() == 1,
            ordered,
        )
    }
}

pub open spec fn rst_item_block(b: Block, first: bool, ordered: bool) -> Seq<char>
    decreases b, 4nat,
{
    match b {
        Block::Paragraph { content } => if content@.len() > 0 {
            (if first {
                if ordered {
                    "#. "@
                } else {
                    "* "@
                }
            } else {
                item_indent(ordered)
            }) + rst_inlines(content@) + seq!['\n']
        } else {
            seq![]
        },
        Block::UnorderedList { items } => prefixed(
            item_indent(ordered),
            lines_spec(rst_list(items@, false)),
            false,
        ),
        Block::OrderedList { items, .. } => prefixed(
            item_indent(ordered),
            lines_spec(rst_list(items@, true)),
            false,
        ),
        _ => rst_body(b),
    }
}

// ---------------------------------------------------------------------------
// Writing
// ---------------------------------------------------------------------------

fn sat_add(a: usize, b: usize) -> (r: usize)
    ensures
        a + b <= usize::MAX ==> r == a + b,
        a + b > usize::MAX ==> r == usize::MAX,
{
    if a <= usize::MAX - b {
        a + b
    } else {
        usize::MAX
    }
}

/// `s` padded with spaces on the right to `width` characters.
pub(crate) fn pad_right(out: &mut Vec<char>, s: &Vec<char>, width: usize)
    ensures
        final(out)@ == old(out)@ + s@ + repeat_spec(' ', if s@.len() < width {
            (width - s@.len()) as nat
        } else {
            0
        }),
{
    push_all(out, s);
    if s.len() < width {
        let pad = repeat(' ', width - s.len());
        push_all(out, &pad);
    }
}

/// Appends each line of `text` to `out` behind `prefix`; with `keep_empty`,
/// empty lines stay empty.
fn push_prefixed_lines(out: &mut Vec<char>, text: &Vec<char>, prefix: &str, keep_empty: bool)
    ensures
        final(out)@ == old(out)@ + prefixed(prefix@, lines_spec(text@), keep_empty),
{
    let ghost start = out@;
    let ls = lines(text);
    let ghost views_ls = views(ls@);
    let mut k: usize = 0;
    while k < ls.len()
        invariant
            k <= ls.len(),
            views_ls == views(ls@),
            views_ls.len() == ls@.len(),
            out@ == start + prefixed(prefix@, views_ls.subrange(0, k as int), keep_empty),
        decreases ls.len() - k,
    {
        let ghost before = out@;
        if !(keep_empty && ls[k].len() == 0) {
            push_str(out, prefix);
            push_all(out, &ls[k]);
        }
        out.push('\n');
        proof {
            assert(views_ls.subrange(0, k + 1).drop_last() =~= views_ls.subrange(0, k as int));
            assert(views_ls[k as int] == ls@[k as int]@);
            assert(out@ =~= start + prefixed(prefix@, views_ls.subrange(0, k + 1), keep_empty));
        }
        k += 1;
    }
    assert(views_ls.subrange(0, views_ls.len() as int) =~= views_ls);
}

fn emit_blocks(out: &mut Vec<char>, blocks: &Vec<Block>)
    ensures
        final(out)@ == rst_blocks(old(out)@, blocks@),
    decreases blocks, 4nat,
{
    let ghost start = out@;
    let mut i: usize = 0;
    assert(blocks@.subrange(0, 0) =~= seq![]);
    while i < blocks.len()
        invariant
            i <= blocks.len(),
            out@ == rst_blocks(start, blocks@.subrange(0, i as int)),
        decreases blocks.len() - i,
    {
        assert(decreases_to!(blocks => blocks@[i as int]));
        proof {
        }
        emit_block(out, &blocks[i], i > 0);
        proof {
            assert(blocks@.subrange(0, i + 1).drop_last() =~= blocks@.subrange(0, i as int));
        }
        i += 1;
    }
    assert(blocks@.subrange(0, blocks@.len() as int) =~= blocks@);
}

/// Writes one block; `later` when blocks came before it in the same sequence.
fn emit_block(out: &mut Vec<char>, block: &Block, later: bool)
    ensures
        final(out)@ == rst_block(old(out)@, *block, later),
    decreases block, 3nat,
{
    if let Block::Paragraph { content } = block {
        if content.len() == 0 {
            return;
        }
    }
    if later {
        ensure_blank_line(out);
    }
    emit_body(out, block);
}

fn emit_body(out: &mut Vec<char>, block: &Block)
    ensures
        final(out)@ == old(out)@ + rst_body(*block),
    decreases block, 2nat,
{
    let ghost start = out@;
    match block {
        Block::Heading { level, content } => {
            let text = inlines_to_chars(content);
            let n = byte_len(&text);
            let width = if n > 3 {
                n
            } else {
                3
            };
            push_all(out, &text);
            out.push('\n');
            push_all(out, &repeat(underline_char(*level), width));
            out.push('\n');
        },
        Block::Paragraph { content } => {
            emit_inlines(out, content);
            out.push('\n');
        },
        Block::CodeBlock { language, content } => {
            push_str(out, ".. code-block::");
            if let Some(lang) = language {
                push_str(out, " ");
                push_string(out, lang);
            }
            push_str(out, "\n\n");
            push_prefixed_lines(out, &chars_of_string(content), "   ", false);
        },
        Block::BlockQuote { children } => {
            let mut inner: Vec<char> = Vec::new();
            emit_blocks(&mut inner, children);
            let inner = chars_of_string(&finish_output(&inner));
            push_prefixed_lines(out, &inner, "   ", true);
        },
        Block::UnorderedList { items } => {
            emit_list(out, items, false);
        },
        Block::OrderedList { items, .. } => {
            emit_list(out, items, true);
        },
        Block::DescriptionList { items } => {
            emit_descriptions(out, items);
        },
        Block::Table { headers, alignments, rows } => {
            if table_has_spans(headers, rows) {
                emit_grid_table(out, headers, rows, alignments.len());
            } else {
                emit_simple_table(out, headers, rows);
            }
        },
        Block::HorizontalRule => {
            push_str(out, "----\n");
        },
        Block::RawBlock { content, .. } => {
            push_string(out, content);
            out.push('\n');
        },
    }
    assert(out@ =~= start + rst_body(*block));
}

fn emit_descriptions(out: &mut Vec<char>, items: &Vec<DescriptionItem>)
    ensures
        final(out)@ == old(out)@ + rst_descriptions(items@),
{
    let ghost start = out@;
    let mut k: usize = 0;
    while k < items.len()
        invariant
            k <= items.len(),
            out@ == start + rst_descriptions(items@.subrange(0, k as int)),
        decreases items.len() - k,
    {
        let item = &items[k];
        if k > 0 {
            out.push('\n');
        }
        emit_inlines(out, &item.term);
        out.push('\n');
        let ghost defs_start = out@;
        let mut d: usize = 0;
        while d < item.definitions.len()
            invariant
                d <= item.definitions.len(),
                out@ == defs_start + rst_definitions(item.definitions@.subrange(0, d as int)),
            decreases item.definitions.len() - d,
        {
            let defs = &item.definitions[d];
            let ghost def_start = out@;
            let mut e: usize = 0;
            while e < defs.len()
                invariant
                    e <= defs.len(),
                    out@ == def_start + rst_definition(defs@.subrange(0, e as int)),
                decreases defs.len() - e,
            {
                if let Block::Paragraph { content } = &defs[e] {
                    push_str(out, "   ");
                    emit_inlines(out, content);
                    out.push('\n');
                }
                proof {
                    assert(defs@.subrange(0, e + 1).drop_last() =~= defs@.subrange(0, e as int));
                    assert(out@ =~= def_start + rst_definition(defs@.subrange(0, e + 1)));
                }
                e += 1;
            }
            proof {
                assert(defs@.subrange(0, defs@.len() as int) =~= defs@);
                assert(item.definitions@.subrange(0, d + 1).drop_last() =~= item.definitions@.subrange(0, d as int));
                assert(out@ =~= defs_start + rst_definitions(item.definitions@.subrange(0, d + 1)));
            }
            d += 1;
        }
        proof {
            assert(item.definitions@.subrange(0, item.definitions@.len() as int) =~= item.definitions@);
            assert(items@.subrange(0, k + 1).drop_last() =~= items@.subrange(0, k as int));
            assert(out@ =~= start + rst_descriptions(items@.subrange(0, k + 1)));
        }
        k += 1;
    }
    assert(items@.subrange(0, items@.len() as int) =~= items@);
}

/// Writes a list: `#. ` items when `ordered`, else `* ` items; the item's later
/// paragraphs and nested lists are indented to the item's text.
fn emit_list(out: &mut Vec<char>, items: &Vec<ListItem>, ordered: bool)
    ensures
        final(out)@ == old(out)@ + rst_list(items@, ordered),
    decreases items, 1nat,
{
    let ghost start = out@;
    let mut i: usize = 0;
    while i < items.len()
        invariant
            i <= items.len(),
            out@ == start + rst_list(items@.subrange(0, i as int), ordered),
        decreases items.len() - i,
    {
        assert(decreases_to!(items => items@[i as int]));
        proof {
        }
        emit_item(out, &items[i], ordered);
        proof {
            assert(items@.subrange(0, i + 1).drop_last() =~= items@.subrange(0, i as int));
            assert(out@ =~= start + rst_list(items@.subrange(0, i + 1), ordered));
        }
        i += 1;
    }
    assert(items@.subrange(0, items@.len() as int) =~= items@);
}

fn emit_item(out: &mut Vec<char>, item: &ListItem, ordered: bool)
    ensures
        final(out)@ == old(out)@ + rst_item(item.content@, ordered),
    decreases item, 0nat,
{
    let ghost start = out@;
    let mut j: usize = 0;
    while j < item.content.len()
        invariant
            j <= item.content.len(),
            out@ == start + rst_item(item.content@.subrange(0, j as int), ordered),
        decreases item.content.len() - j,
    {
        let block = &item.content[j];
        assert(decreases_to!(item => item.content));
        assert(decreases_to!(item.content => item.content@[j as int]));
        proof {
        }
        emit_item_block(out, block, j == 0, ordered);
        proof {
            assert(item.content@.subrange(0, j + 1).drop_last() =~= item.content@.subrange(0, j as int));
            assert(out@ =~= start + rst_item(item.content@.subrange(0, j + 1), ordered));
        }
        j += 1;
    }
    assert(item.content@.subrange(0, item.content@.len() as int) =~= item.content@);
}

fn emit_item_block(out: &mut Vec<char>, block: &Block, first: bool, ordered: bool)
    ensures
        final(out)@ == old(out)@ + rst_item_block(*block, first, ordered),
    decreases block, 4nat,
{
    let ghost start = out@;
    let indent = if ordered {
        "   "
    } else {
        "  "
    };
    assert(indent@ == item_indent(ordered));
    match block {
        Block::Paragraph { content } => {
            if content.len() > 0 {
                if first {
                    if ordered {
                        push_str(out, "#. ");
                    } else {
                        push_str(out, "* ");
                    }
                } else {
                    push_str(out, indent);
                }
                emit_inlines(out, content);
                out.push('\n');
            }
        },
        Block::UnorderedList { items } => {
            let mut inner: Vec<char> = Vec::new();
            emit_list(&mut inner, items, false);
            assert(inner@ =~= rst_list(items@, false));
            push_prefixed_lines(out, &inner, indent, false);
        },
        Block::OrderedList { items, .. } => {
            let mut inner: Vec<char> = Vec::new();
            emit_list(&mut inner, items, true);
            assert(inner@ =~= rst_list(items@, true));
            push_prefixed_lines(out, &inner, indent, false);
        },
        _ => emit_body(out, block),
    }
    assert(out@ =~= start + rst_item_block(*block, first, ordered));
}

/// The width of a text held in a `usize`.
fn text_width(text: &Vec<char>) -> (w: usize)
    ensures
        w == width_of(text@),
{
    byte_len(text)
}

fn emit_simple_table(out: &mut Vec<char>, headers: &Vec<TableCell>, rows: &Vec<Vec<TableCell>>)
    ensures
        final(out)@ == old(out)@ + simple_table(headers@, rows@),
{
    let ghost begin = out@;
    let mut widths: Vec<usize> = Vec::new();
    let mut i: usize = 0;
    while i < headers.len()
        invariant
            i <= headers.len(),
            widths@.len() == i,
            forall|c: int| 0 <= c < i ==> #[trigger] widths@[c] as int == simple_widths(headers@, seq![])[c],
        decreases headers.len() - i,
    {
        let w = text_width(&inlines_to_chars(&headers[i].content));
        widths.push(
            if w > 3 {
                w
            } else {
                3
            },
        );
        i += 1;
    }
    assert(rows@.subrange(0, 0) =~= seq![]);
    let mut r: usize = 0;
    while r < rows.len()
        invariant
            r <= rows.len(),
            widths@.len() == headers@.len(),
            simple_widths(headers@, rows@.subrange(0, r as int)).len() == headers@.len(),
            forall|c: int| 0 <= c < widths@.len() ==> #[trigger] widths@[c] as int == simple_widths(headers@, rows@.subrange(0, r as int))[c],
        decreases rows.len() - r,
    {
        let row = &rows[r];
        let ghost before = widths@;
        assert(rows@.subrange(0, r + 1).drop_last() =~= rows@.subrange(0, r as int));
        let mut c: usize = 0;
        while c < row.len()
            invariant
                c <= row.len(),
                widths@.len() == headers@.len(),
                before.len() == headers@.len(),
                forall|k: int| 0 <= k < widths@.len() ==> #[trigger] widths@[k] == if k < c && width_of(rst_inlines(row@[k].content@)) > before[k] {
                    width_of(rst_inlines(row@[k].content@)) as usize
                } else {
                    before[k]
                },
            decreases row.len() - c,
        {
            if c < widths.len() {
                let w = text_width(&inlines_to_chars(&row[c].content));
                if w > widths[c] {
                    widths.set(c, w);
                }
            }
            c += 1;
        }
        r += 1;
    }
    assert(rows@.subrange(0, rows@.len() as int) =~= rows@);
    let ghost ws = simple_widths(headers@, rows@);
    assert(widths@.map_values(|w: usize| w as int) =~= ws);
    let mut line: Vec<char> = Vec::new();
    let mut k: usize = 0;
    while k < widths.len()
        invariant
            k <= widths.len(),
            ws == widths@.map_values(|w: usize| w as int),
            line@ == border(ws.subrange(0, k as int)),
        decreases widths.len() - k,
    {
        if k > 0 {
            push_str(&mut line, "  ");
        }
        push_all(&mut line, &repeat('=', widths[k]));
        proof {
            assert(ws.subrange(0, k + 1).drop_last() =~= ws.subrange(0, k as int));
            assert(line@ =~= border(ws.subrange(0, k + 1)));
        }
        k += 1;
    }
    assert(ws.subrange(0, ws.len() as int) =~= ws);
    push_all(out, &line);
    out.push('\n');
    emit_simple_row(out, headers, &widths);
    push_all(out, &line);
    out.push('\n');
    let ghost body = out@;
    let mut r: usize = 0;
    while r < rows.len()
        invariant
            r <= rows.len(),
            ws == widths@.map_values(|w: usize| w as int),
            out@ == body + simple_rows(rows@.subrange(0, r as int), ws),
        decreases rows.len() - r,
    {
        emit_simple_row(out, &rows[r], &widths);
        proof {
            assert(rows@.subrange(0, r + 1).drop_last() =~= rows@.subrange(0, r as int));
            assert(out@ =~= body + simple_rows(rows@.subrange(0, r + 1), ws));
        }
        r += 1;
    }
    assert(rows@.subrange(0, rows@.len() as int) =~= rows@);
    push_all(out, &line);
    out.push('\n');
    assert(out@ =~= begin + simple_table(headers@, rows@));
}

fn emit_simple_row(out: &mut Vec<char>, cells: &Vec<TableCell>, widths: &Vec<usize>)
    ensures
        final(out)@ == old(out)@ + simple_cells(cells@, widths@.map_values(|w: usize| w as int)) + seq!['\n'],
{
    let ghost start = out@;
    let ghost ws = widths@.map_values(|w: usize| w as int);
    let mut i: usize = 0;
    while i < cells.len()
        invariant
            i <= cells.len(),
            ws == widths@.map_values(|w: usize| w as int),
            out@ == start + simple_cells(cells@.subrange(0, i as int), ws),
        decreases cells.len() - i,
    {
        if i > 0 {
            push_str(out, "  ");
        }
        let w = if i < widths.len() {
            widths[i]
        } else {
            3
        };
        pad_right(out, &inlines_to_chars(&cells[i].content), w);
        proof {
            assert(cells@.subrange(0, i + 1).drop_last() =~= cells@.subrange(0, i as int));
            assert(out@ =~= start + simple_cells(cells@.subrange(0, i + 1), ws));
        }
        i += 1;
    }
    assert(cells@.subrange(0, cells@.len() as int) =~= cells@);
    out.push('\n');
}

/// A grid with no owner at any position. An owner is the colspan, rowspan and
/// index in its row of the cell placed at a position.
fn owner_grid(rows: usize, cols: usize) -> (g: Vec<Vec<Option<(u32, u32, usize)>>>)
    ensures
        g@.len() == rows,
        forall|r: int| 0 <= r < rows ==> (#[trigger] g@[r])@.len() == cols,
        owners_view(g@) == no_owners(rows as nat, cols as nat),
{
    let mut g: Vec<Vec<Option<(u32, u32, usize)>>> = Vec::new();
    let mut r: usize = 0;
    while r < rows
        invariant
            r <= rows,
            g@.len() == r,
            forall|k: int| 0 <= k < r ==> (#[trigger] g@[k])@.len() == cols,
            owners_view(g@) == no_owners(r as nat, cols as nat),
        decreases rows - r,
    {
        let mut row: Vec<Option<(u32, u32, usize)>> = Vec::new();
        let mut c: usize = 0;
        while c < cols
            invariant
                c <= cols,
                row@ == Seq::new(c as nat, |j: int| None::<(u32, u32, usize)>),
            decreases cols - c,
        {
            row.push(None);
            c += 1;
            assert(row@ =~= Seq::new(c as nat, |j: int| None::<(u32, u32, usize)>));
        }
        let ghost gb = g@;
        g.push(row);
        r += 1;
        assert forall|i: int| 0 <= i < r implies #[trigger] owners_view(g@)[i] == no_owners(r as nat, cols as nat)[i] by {
            if i < r - 1 {
                assert(g@[i] == gb[i]);
                assert(owners_view(gb)[i] == no_owners((r - 1) as nat, cols as nat)[i]);
            }
        }
        assert(owners_view(g@) =~= no_owners(r as nat, cols as nat));
    }
    g
}

/// The owners recorded in a grid of rows.
pub open spec fn owners_view(g: Seq<Vec<Option<(u32, u32, usize)>>>) -> Seq<Seq<Option<(u32, u32, usize)>>> {
    Seq::new(g.len(), |i: int| g[i]@)
}

/// A grid of `rows` rows of `cols` positions without owner.
pub open spec fn no_owners(rows: nat, cols: nat) -> Seq<Seq<Option<(u32, u32, usize)>>> {
    Seq::new(rows, |i: int| Seq::new(cols, |j: int| None::<(u32, u32, usize)>))
}

/// The owner at row `r`, column `c` of the owners' grid, or none outside it.
pub open spec fn owner_of(g: Seq<Seq<Option<(u32, u32, usize)>>>, r: int, c: int) -> Option<(u32, u32, usize)> {
    if 0 <= r < g.len() && 0 <= c < g[r].len() {
        g[r][c]
    } else {
        None
    }
}

/// The grid with the owner at row `r`, column `c` set to `v`, where it is there.
pub open spec fn owner_with(g: Seq<Seq<Option<(u32, u32, usize)>>>, r: int, c: int, v: Option<(u32, u32, usize)>) -> Seq<
    Seq<Option<(u32, u32, usize)>>,
> {
    if 0 <= r < g.len() && 0 <= c < g[r].len() {
        g.update(r, g[r].update(c, v))
    } else {
        g
    }
}

/// The owner recorded at row `r`, column `c`, or `None` outside the grid.
pub open spec fn owner_at(g: Seq<Vec<Option<(u32, u32, usize)>>>, r: int, c: int) -> Option<(u32, u32, usize)> {
    if 0 <= r < g.len() && 0 <= c < g[r]@.len() {
        g[r]@[c]
    } else {
        None
    }
}

fn owner_set(g: &mut Vec<Vec<Option<(u32, u32, usize)>>>, r: usize, c: usize, v: Option<(u32, u32, usize)>)
    ensures
        final(g)@.len() == old(g)@.len(),
        r < old(g)@.len() && c < old(g)@[r as int]@.len() ==> final(g)@ == old(g)@.update(
            r as int,
            final(g)@[r as int],
        ) && final(g)@[r as int]@ == old(g)@[r as int]@.update(c as int, v),
        !(r < old(g)@.len() && c < old(g)@[r as int]@.len()) ==> final(g)@ == old(g)@,
{
    if r < g.len() && c < g[r].len() {
        let mut row: Vec<Option<(u32, u32, usize)>> = Vec::new();
        let mut k: usize = 0;
        while k < g[r].len()
            invariant
                k <= g[r as int]@.len(),
                r < g@.len(),
                c < g[r as int]@.len(),
                g@ == old(g)@,
                row@ == old(g)@[r as int]@.update(c as int, v).subrange(0, k as int),
            decreases g[r as int]@.len() - k,
        {
            row.push(
                if k == c {
                    v
                } else {
                    g[r][k]
                },
            );
            k += 1;
            assert(row@ =~= old(g)@[r as int]@.update(c as int, v).subrange(0, k as int));
        }
        assert(row@ =~= old(g)@[r as int]@.update(c as int, v));
        g.set(r, row);
    }
}

fn owner_get(g: &Vec<Vec<Option<(u32, u32, usize)>>>, r: usize, c: usize) -> (o: Option<(u32, u32, usize)>)
    ensures
        o == owner_at(g@, r as int, c as int),
{
    if r < g.len() && c < g[r].len() {
        g[r][c]
    } else {
        None
    }
}

/// The spans of the cells of the header row and the data rows, in order.
fn span_rows(headers: &Vec<TableCell>, rows: &Vec<Vec<TableCell>>) -> (g: Vec<Vec<(u32, u32)>>)
    ensures
        g@.len() == rows@.len() + 1,
        spans_view(g@) == table_spans_of(headers@, rows@),
{
    let mut g: Vec<Vec<(u32, u32)>> = Vec::new();
    g.push(cell_spans(headers));
    let mut r: usize = 0;
    assert(spans_view(g@) =~= table_spans_of(headers@, rows@).subrange(0, 1));
    while r < rows.len()
        invariant
            r <= rows.len(),
            g@.len() == r + 1,
            spans_view(g@) == table_spans_of(headers@, rows@).subrange(0, r + 1),
        decreases rows.len() - r,
    {
        let ghost gb = g@;
        g.push(cell_spans(&rows[r]));
        r += 1;
        assert forall|i: int| 0 <= i < r + 1 implies #[trigger] spans_view(g@)[i] == table_spans_of(headers@, rows@).subrange(0, r + 1)[i] by {
            if i < r {
                assert(g@[i] == gb[i]);
                assert(spans_view(gb)[i] == table_spans_of(headers@, rows@).subrange(0, r as int)[i]);
            }
        }
        assert(spans_view(g@) =~= table_spans_of(headers@, rows@).subrange(0, r + 1));
    }
    assert(table_spans_of(headers@, rows@).subrange(0, r + 1) =~= table_spans_of(headers@, rows@));
    g
}

/// The spans of a row of cells.
pub open spec fn spans_of_cells(cells: Seq<TableCell>) -> Seq<(u32, u32)> {
    Seq::new(cells.len(), |i: int| (cells[i].colspan, cells[i].rowspan))
}

/// The spans of the header row and of each data row, in order.
pub open spec fn table_spans_of(headers: Seq<TableCell>, rows: Seq<Vec<TableCell>>) -> Seq<Seq<(u32, u32)>> {
    seq![spans_of_cells(headers)] + Seq::new(rows.len(), |r: int| spans_of_cells(rows[r]@))
}

/// The spans of rows of spans.
pub open spec fn spans_view(g: Seq<Vec<(u32, u32)>>) -> Seq<Seq<(u32, u32)>> {
    Seq::new(g.len(), |i: int| g[i]@)
}

fn cell_spans(cells: &Vec<TableCell>) -> (v: Vec<(u32, u32)>)
    ensures
        v@ == spans_of_cells(cells@),
{
    let mut v: Vec<(u32, u32)> = Vec::new();
    let mut i: usize = 0;
    while i < cells.len()
        invariant
            i <= cells.len(),
            v@ == spans_of_cells(cells@).subrange(0, i as int),
        decreases cells.len() - i,
    {
        v.push((cells[i].colspan, cells[i].rowspan));
        i += 1;
        assert(v@ =~= spans_of_cells(cells@).subrange(0, i as int));
    }
    assert(v@ =~= spans_of_cells(cells@));
    v
}

/// The first column from `col` on that the grid does not mark in row `row`,
/// or `n`.
pub open spec fn skip_marked(g: Seq<Seq<bool>>, row: int, col: int, n: int) -> int
    decreases n - col,
{
    if col < n && grid_at(g, row, col) {
        skip_marked(g, row, col + 1, n)
    } else {
        col
    }
}

/// The grid with row `rr` marked at columns `col + c` for `c` from `c0`
/// below `cmax`, the cell's own position (`first`, column `col`) left out.
pub open spec fn mark_span_line(g: Seq<Seq<bool>>, rr: int, col: int, cmax: int, first: bool, c0: int) -> Seq<Seq<bool>>
    decreases cmax - c0,
{
    if c0 >= cmax {
        g
    } else {
        let g2 = if !first || c0 > 0 { grid_with(g, rr, col + c0) } else { g };
        mark_span_line(g2, rr, col, cmax, first, c0 + 1)
    }
}

/// The grid with the `rmax` rows from `row` (from `r0` on) marked over the
/// `cmax` columns from `col`, the cell's own position left out.
pub open spec fn mark_span_block(g: Seq<Seq<bool>>, row: int, col: int, rmax: int, cmax: int, r0: int) -> Seq<Seq<bool>>
    decreases rmax - r0,
{
    if r0 >= rmax {
        g
    } else {
        mark_span_block(mark_span_line(g, row + r0, col, cmax, r0 == 0, 0), row, col, rmax, cmax, r0 + 1)
    }
}

/// Placing the cells of row `row` from the `k`-th on, from column `col`: a
/// cell takes the first column from there that is not marked, records its
/// owner and its placement, marks the positions its spans cover (cut at the
/// grid's edges) and moves the column past its column span; placing stops
/// where no column is left.
pub open spec fn place_row(
    sp: Seq<(u32, u32)>,
    row: int,
    n: int,
    total: int,
    k: int,
    col: int,
    ow: Seq<Seq<Option<(u32, u32, usize)>>>,
    g: Seq<Seq<bool>>,
    pl: Seq<(usize, usize, usize)>,
) -> (Seq<Seq<Option<(u32, u32, usize)>>>, Seq<Seq<bool>>, Seq<(usize, usize, usize)>)
    decreases sp.len() - k,
{
    if k < 0 || k >= sp.len() {
        (ow, g, pl)
    } else {
        let c1 = skip_marked(g, row, col, n);
        if c1 >= n {
            (ow, g, pl)
        } else {
            let cs = sp[k].0 as int;
            let rs = sp[k].1 as int;
            let rmax = if rs < total - row { rs } else { total - row };
            let cmax = if cs < n - c1 { cs } else { n - c1 };
            place_row(
                sp,
                row,
                n,
                total,
                k + 1,
                capped(c1 + cs),
                owner_with(ow, row, c1, Some((sp[k].0, sp[k].1, k as usize))),
                mark_span_block(g, row, c1, rmax, cmax, 0),
                pl.push((row as usize, c1 as usize, k as usize)),
            )
        }
    }
}

/// Placing the rows from `row` on.
pub open spec fn place_rows(
    sp: Seq<Seq<(u32, u32)>>,
    n: int,
    row: int,
    ow: Seq<Seq<Option<(u32, u32, usize)>>>,
    g: Seq<Seq<bool>>,
    pl: Seq<(usize, usize, usize)>,
) -> (Seq<Seq<Option<(u32, u32, usize)>>>, Seq<Seq<bool>>, Seq<(usize, usize, usize)>)
    decreases sp.len() - row,
{
    if row < 0 || row >= sp.len() {
        (ow, g, pl)
    } else {
        let t = place_row(sp[row], row, n, sp.len() as int, 0, 0, ow, g, pl);
        place_rows(sp, n, row + 1, t.0, t.1, t.2)
    }
}

/// The owners, the marked positions and the placements (row, column, index
/// in the row) of the cells of the rows `sp` on a grid of `n` columns.
pub open spec fn placement(sp: Seq<Seq<(u32, u32)>>, n: int) -> (Seq<Seq<Option<(u32, u32, usize)>>>, Seq<Seq<bool>>, Seq<(usize, usize, usize)>) {
    place_rows(sp, n, 0, no_owners(sp.len(), n as nat), empty_grid(sp.len(), n as nat), seq![])
}

/// Sets the owner at row `r`, column `c` of the grid, if it is there.
fn owner_put(g: &mut Vec<Vec<Option<(u32, u32, usize)>>>, r: usize, c: usize, v: Option<(u32, u32, usize)>)
    ensures
        final(g)@.len() == old(g)@.len(),
        owners_view(final(g)@) == owner_with(owners_view(old(g)@), r as int, c as int, v),
{
    let ghost before = owners_view(g@);
    owner_set(g, r, c, v);
    assert(owners_view(g@) =~= owner_with(before, r as int, c as int, v));
}

/// Places the cells of each row on a grid of `num_cols` columns (see
/// `placement`). Returns the owners, the marked positions and the
/// placements.
fn place_cells(spans: &Vec<Vec<(u32, u32)>>, num_cols: usize) -> (r: (
    Vec<Vec<Option<(u32, u32, usize)>>>,
    Vec<Vec<bool>>,
    Vec<(usize, usize, usize)>,
))
    ensures
        r.0@.len() == spans@.len(),
        r.1@.len() == spans@.len(),
        (owners_view(r.0@), grid_view(r.1@), r.2@) == placement(spans_view(spans@), num_cols as int),
{
    let ghost sp = spans_view(spans@);
    let ghost n = num_cols as int;
    let total = spans.len();
    let mut owners = owner_grid(total, num_cols);
    let mut occupied = bool_grid(total, num_cols);
    let mut placed: Vec<(usize, usize, usize)> = Vec::new();
    let ghost target = placement(sp, n);
    let mut row_idx: usize = 0;
    while row_idx < total
        invariant
            row_idx <= total,
            total == spans@.len(),
            sp == spans_view(spans@),
            n == num_cols,
            owners@.len() == total,
            occupied@.len() == total,
            place_rows(sp, n, row_idx as int, owners_view(owners@), grid_view(occupied@), placed@) == target,
        decreases total - row_idx,
    {
        let row = &spans[row_idx];
        assert(row@ == sp[row_idx as int]);
        let ghost row_target = place_row(row@, row_idx as int, n, total as int, 0, 0, owners_view(owners@), grid_view(occupied@), placed@);
        let mut col: usize = 0;
        let mut k: usize = 0;
        while k < row.len()
            invariant_except_break
                place_row(row@, row_idx as int, n, total as int, k as int, col as int, owners_view(owners@), grid_view(occupied@), placed@) == row_target,
            invariant
                k <= row.len(),
                row_idx < total,
                total == spans@.len(),
                n == num_cols,
                owners@.len() == total,
                occupied@.len() == total,
            ensures
                (owners_view(owners@), grid_view(occupied@), placed@) == row_target,
            decreases row.len() - k,
        {
            let ghost col0 = col as int;
            while col < num_cols && grid_get(&occupied, row_idx, col)
                invariant
                    skip_marked(grid_view(occupied@), row_idx as int, col0, n) == skip_marked(grid_view(occupied@), row_idx as int, col as int, n),
                    n == num_cols,
                decreases num_cols - col,
            {
                col += 1;
            }
            if col >= num_cols {
                break;
            }
            let (cs, rs) = row[k];
            let ghost g0 = grid_view(occupied@);
            owner_put(&mut owners, row_idx, col, Some((cs, rs, k)));
            placed.push((row_idx, col, k));
            let rmax = if (rs as usize) < total - row_idx {
                rs as usize
            } else {
                total - row_idx
            };
            let cmax = if (cs as usize) < num_cols - col {
                cs as usize
            } else {
                num_cols - col
            };
            let mut r: usize = 0;
            while r < rmax
                invariant
                    rmax <= total - row_idx,
                    col < num_cols,
                    cmax <= num_cols - col,
                    occupied@.len() == total,
                    mark_span_block(grid_view(occupied@), row_idx as int, col as int, rmax as int, cmax as int, r as int)
                        == mark_span_block(g0, row_idx as int, col as int, rmax as int, cmax as int, 0),
                decreases rmax - r,
            {
                let ghost gr = grid_view(occupied@);
                let mut c: usize = 0;
                while c < cmax
                    invariant
                        r < rmax,
                        rmax <= total - row_idx,
                        col < num_cols,
                        cmax <= num_cols - col,
                        occupied@.len() == total,
                        mark_span_line(grid_view(occupied@), row_idx + r, col as int, cmax as int, r == 0, c as int)
                            == mark_span_line(gr, row_idx + r, col as int, cmax as int, r == 0, 0),
                    decreases cmax - c,
                {
                    if r > 0 || c > 0 {
                        grid_mark(&mut occupied, row_idx + r, col + c);
                    }
                    c += 1;
                }
                r += 1;
            }
            col = sat_add(col, cs as usize);
            k += 1;
        }
        row_idx += 1;
    }
    (owners, occupied, placed)
}

/// Whether a span of `span` from `start` reaches past `col`.
fn span_reaches(start: usize, span: u32, col: usize) -> (b: bool)
    ensures
        b == (start + span > col),
{
    if start > col {
        true
    } else {
        span as usize > col - start
    }
}

/// `x`, or the largest `usize` where `x` is larger.
pub open spec fn capped(x: int) -> int {
    if x > usize::MAX {
        usize::MAX as int
    } else {
        x
    }
}

/// The widths of the first `n` of the columns from `col` (those that exist),
/// added up with each sum capped at the largest `usize`.
pub open spec fn span_total(w: Seq<usize>, col: int, n: int) -> int
    decreases n,
{
    if n <= 0 {
        0
    } else {
        let add = if 0 <= col < w.len() && n - 1 < w.len() - col {
            w[col + n - 1] as int
        } else {
            0
        };
        capped(span_total(w, col, n - 1) + add)
    }
}

/// The width of a cell that spans `cs` columns from `col`: their widths
/// and three characters for each boundary between them, capped.
pub open spec fn spanned_width_of(w: Seq<usize>, col: int, cs: int) -> int {
    let n = if cs < w.len() {
        cs
    } else {
        w.len() as int
    };
    let seps = if cs >= 1 && cs - 1 <= usize::MAX / 3 {
        (cs - 1) * 3
    } else if cs >= 1 {
        usize::MAX as int
    } else {
        0
    };
    capped(span_total(w, col, n) + seps)
}

/// The sum of the widths of the `cs` columns from `col` (those that exist),
/// with three characters for each boundary between them.
fn spanned_width(widths: &Vec<usize>, col: usize, cs: usize) -> (n: usize)
    ensures
        n == spanned_width_of(widths@, col as int, cs as int),
{
    let mut total: usize = 0;
    let mut c: usize = 0;
    while c < cs && c < widths.len()
        invariant
            c <= cs,
            c <= widths.len(),
            total == span_total(widths@, col as int, c as int),
        decreases cs - c,
    {
        if col < widths.len() && c < widths.len() - col {
            total = sat_add(total, widths[col + c]);
        }
        c += 1;
    }
    let seps = if cs >= 1 && cs - 1 <= usize::MAX / 3 {
        (cs - 1) * 3
    } else if cs >= 1 {
        usize::MAX
    } else {
        0
    };
    sat_add(total, seps)
}

/// The text of each cell of the header row and of each data row.
pub open spec fn table_texts(headers: Seq<TableCell>, rows: Seq<Vec<TableCell>>) -> Seq<Seq<Seq<char>>> {
    seq![Seq::new(headers.len(), |i: int| rst_inlines(headers[i].content@))] + Seq::new(
        rows.len(),
        |r: int| Seq::new(rows[r]@.len(), |i: int| rst_inlines(rows[r]@[i].content@)),
    )
}

/// The texts of rows of texts.
pub open spec fn texts_view(t: Seq<Vec<Vec<char>>>) -> Seq<Seq<Seq<char>>> {
    Seq::new(t.len(), |i: int| Seq::new(t[i]@.len(), |j: int| t[i]@[j]@))
}

/// The number of UTF-8 bytes of `t`, capped at the largest `usize`.
pub open spec fn capped_len(t: Seq<char>) -> int {
    if utf8_len(t) > usize::MAX { usize::MAX as int } else { utf8_len(t) as int }
}

/// The widths after the cell placed at `e` (row, column, index) is fitted:
/// its column grows to the cell's text (at least 1), or, for a cell that
/// spans columns, the first of them grows by what the spanned width lacks.
pub open spec fn fit_width(
    w: Seq<usize>,
    e: (usize, usize, usize),
    ts: Seq<Seq<Seq<char>>>,
    ow: Seq<Seq<Option<(u32, u32, usize)>>>,
    sp: Seq<Seq<(u32, u32)>>,
) -> Seq<usize> {
    let (ri, col, idx) = e;
    let text_len = if ri < ts.len() && idx < ts[ri as int].len() { capped_len(ts[ri as int][idx as int]) } else { 0 };
    let cs0: int = match owner_of(ow, ri as int, col as int) {
        Some((c, _, _)) => c as int,
        None => 1,
    };
    let cs = if ri < sp.len() && idx < sp[ri as int].len() { sp[ri as int][idx as int].0 as int } else { cs0 };
    let min_width = if text_len > 1 { text_len } else { 1 };
    if col < w.len() {
        if cs == 1 {
            if min_width > w[col as int] { w.update(col as int, min_width as usize) } else { w }
        } else {
            let current = spanned_width_of(w, col as int, cs);
            if min_width > current {
                w.update(col as int, capped(w[col as int] + min_width - current) as usize)
            } else {
                w
            }
        }
    } else {
        w
    }
}

/// The widths after the placements from the `p`-th on are fitted.
pub open spec fn fit_widths(
    w: Seq<usize>,
    pl: Seq<(usize, usize, usize)>,
    p: int,
    ts: Seq<Seq<Seq<char>>>,
    ow: Seq<Seq<Option<(u32, u32, usize)>>>,
    sp: Seq<Seq<(u32, u32)>>,
) -> Seq<usize>
    decreases pl.len() - p,
{
    if p < 0 || p >= pl.len() {
        w
    } else {
        fit_widths(fit_width(w, pl[p], ts, ow, sp), pl, p + 1, ts, ow, sp)
    }
}

/// The column widths of a grid table: 3 for each of the `n` columns, grown
/// to fit the placed cells in order.
pub open spec fn grid_widths(headers: Seq<TableCell>, rows: Seq<Vec<TableCell>>, n: int) -> Seq<usize> {
    let sp = table_spans_of(headers, rows);
    let pc = placement(sp, n);
    fit_widths(Seq::new(n as nat, |j: int| 3usize), pc.2, 0, table_texts(headers, rows), pc.0, sp)
}

/// The spaces that pad a text of `len` characters to `width`.
pub open spec fn pad_len(len: int, width: int) -> nat {
    if len < width { (width - len) as nat } else { 0 }
}

/// Looking left from column `oc` (exclusive) in row `row` for the cell that
/// covers column `col`: the first column whose owner spans past `col` or
/// that is not marked, or 0.
pub open spec fn back_owner(ow: Seq<Seq<Option<(u32, u32, usize)>>>, g: Seq<Seq<bool>>, row: int, col: int, oc: int) -> int
    decreases oc,
{
    if oc <= 0 {
        oc
    } else {
        let o = oc - 1;
        let hit = match owner_of(ow, row, o) {
            Some((cs, _, _)) => o + cs > col,
            None => false,
        };
        if hit || !grid_at(g, row, o) { o } else { back_owner(ow, g, row, col, o) }
    }
}

/// The boundary written before column `col` of row `row`: `|`, unless the
/// column is marked and a cell to its left spans over it; nothing after the
/// last column.
pub open spec fn cell_boundary(ow: Seq<Seq<Option<(u32, u32, usize)>>>, g: Seq<Seq<bool>>, row: int, col: int, n: int) -> Seq<char> {
    if col < n {
        if grid_at(g, row, col) {
            let oc = back_owner(ow, g, row, col, col);
            let skip = match owner_of(ow, row, oc) {
                Some((cs, _, _)) => oc + cs > col,
                None => false,
            };
            if skip { seq![] } else { seq!['|'] }
        } else {
            seq!['|']
        }
    } else {
        seq![]
    }
}

/// The cell written at column `col` of row `row` and the column after it: the
/// owner's text padded to the width of the columns it spans, or spaces over
/// the column's width where no cell starts.
pub open spec fn grid_cell(
    ts: Seq<Seq<Seq<char>>>,
    ow: Seq<Seq<Option<(u32, u32, usize)>>>,
    w: Seq<usize>,
    row: int,
    n: int,
    col: int,
) -> (Seq<char>, int) {
    match owner_of(ow, row, col) {
        Some((cs, _, idx)) => {
            let wd = spanned_width_of(w, col, cs as int);
            let text = if 0 <= row < ts.len() && idx < ts[row].len() { ts[row][idx as int] } else { seq![] };
            let next = if cs >= 1 { capped(col + cs) } else { col + 1 };
            (
                seq![' '] + text + repeat_spec(' ', pad_len(text.len() as int, wd)) + seq![' '],
                if next < n { next } else { n },
            )
        },
        None => (seq![' '] + repeat_spec(' ', pad_len(0, w[col] as int)) + seq![' '], col + 1),
    }
}

/// The cells of row `row` from column `col` on, each followed by its
/// boundary.
pub open spec fn grid_cells(
    ts: Seq<Seq<Seq<char>>>,
    ow: Seq<Seq<Option<(u32, u32, usize)>>>,
    g: Seq<Seq<bool>>,
    w: Seq<usize>,
    row: int,
    n: int,
    col: int,
) -> Seq<char>
    decreases n - col,
{
    if col < 0 || col >= n {
        seq![]
    } else {
        let st = grid_cell(ts, ow, w, row, n, col);
        if col < st.1 <= n {
            st.0 + cell_boundary(ow, g, row, st.1, n) + grid_cells(ts, ow, g, w, row, n, st.1)
        } else {
            seq![]
        }
    }
}

/// The separator line after row `row`: `=` under the header row when data
/// rows follow, `-` between data rows, and the closing border after the last
/// row.
pub open spec fn grid_rule(
    ow: Seq<Seq<Option<(u32, u32, usize)>>>,
    g: Seq<Seq<bool>>,
    w: Seq<usize>,
    n: int,
    total: int,
    has_rows: bool,
    row: int,
) -> Seq<char> {
    if row == 0 && has_rows {
        seq!['+'] + separator_pieces(w, ow, g, row + 1, '=', false, n) + seq!['+']
    } else if row + 1 < total {
        seq!['+'] + separator_pieces(w, ow, g, row + 1, '-', false, n) + seq!['+']
    } else {
        seq!['+'] + separator_pieces(w, ow, g, row + 1, '-', true, n) + seq!['+']
    }
}

/// The lines of the rows from `row` on, each followed by its separator line.
pub open spec fn grid_lines(
    ts: Seq<Seq<Seq<char>>>,
    ow: Seq<Seq<Option<(u32, u32, usize)>>>,
    g: Seq<Seq<bool>>,
    w: Seq<usize>,
    n: int,
    total: int,
    has_rows: bool,
    row: int,
) -> Seq<char>
    decreases total - row,
{
    if row < 0 || row >= total {
        seq![]
    } else {
        seq!['|'] + grid_cells(ts, ow, g, w, row, n, 0) + "|\n"@ + grid_rule(ow, g, w, n, total, has_rows, row)
            + seq!['\n'] + grid_lines(ts, ow, g, w, n, total, has_rows, row + 1)
    }
}

/// A grid table with spanning cells on `n` columns: the cells placed on the
/// grid (`placement`), the columns as wide as `grid_widths` makes them, the
/// top border, and each row's line followed by its separator line.
pub open spec fn grid_text(headers: Seq<TableCell>, rows: Seq<Vec<TableCell>>, n: int) -> Seq<char> {
    let sp = table_spans_of(headers, rows);
    let pc = placement(sp, n);
    let w = grid_widths(headers, rows, n);
    seq!['+'] + separator_pieces(w, pc.0, pc.1, 0, '-', true, n) + seq!['+'] + seq!['\n'] + grid_lines(
        table_texts(headers, rows),
        pc.0,
        pc.1,
        w,
        n,
        sp.len() as int,
        rows.len() > 0,
        0,
    )
}

#[verifier::rlimit(100)]
fn emit_grid_table(out: &mut Vec<char>, headers: &Vec<TableCell>, rows: &Vec<Vec<TableCell>>, num_cols: usize)
    ensures
        final(out)@.len() >= old(out)@.len() + 3,
        final(out)@.subrange(0, old(out)@.len() as int) == old(out)@,
        final(out)@[old(out)@.len() as int] == '+',
        final(out)@.last() == '\n',
        final(out)@[final(out)@.len() - 2] == '+',
        final(out)@ == old(out)@ + grid_text(headers@, rows@, num_cols as int),
{
    let spans = span_rows(headers, rows);
    let total = spans.len();
    let ghost tt = table_texts(headers@, rows@);
    let mut texts: Vec<Vec<Vec<char>>> = Vec::new();
    let mut hrow: Vec<Vec<char>> = Vec::new();
    let mut i: usize = 0;
    while i < headers.len()
        invariant
            i <= headers.len(),
            hrow@.len() == i,
            tt == table_texts(headers@, rows@),
            Seq::new(hrow@.len(), |j: int| hrow@[j]@) == tt[0].subrange(0, i as int),
        decreases headers.len() - i,
    {
        let ghost hb = hrow@;
        let t = inlines_to_chars(&headers[i].content);
        hrow.push(t);
        assert(tt[0] == Seq::new(headers@.len(), |q: int| rst_inlines(headers@[q].content@)));
        assert(hrow@[i as int]@ == tt[0][i as int]);
        i += 1;
        assert forall|j: int| 0 <= j < i implies #[trigger] hrow@[j]@ == tt[0].subrange(0, i as int)[j] by {
            if j < i - 1 {
                assert(hrow@[j] == hb[j]);
                assert(Seq::new(hb.len(), |q: int| hb[q]@)[j] == tt[0].subrange(0, i - 1)[j]);
            }
        }
        assert(Seq::new(hrow@.len(), |j: int| hrow@[j]@) =~= tt[0].subrange(0, i as int));
    }
    assert(Seq::new(hrow@.len(), |j: int| hrow@[j]@) =~= tt[0]);
    texts.push(hrow);
    assert(texts_view(texts@) =~= tt.subrange(0, 1));
    let mut r: usize = 0;
    while r < rows.len()
        invariant
            r <= rows.len(),
            tt == table_texts(headers@, rows@),
            texts@.len() == r + 1,
            texts_view(texts@) == tt.subrange(0, r + 1),
        decreases rows.len() - r,
    {
        let mut trow: Vec<Vec<char>> = Vec::new();
        let row = &rows[r];
        let mut c: usize = 0;
        while c < row.len()
            invariant
                c <= row.len(),
                trow@.len() == c,
                r < rows.len(),
                row == rows@[r as int],
                tt == table_texts(headers@, rows@),
                Seq::new(trow@.len(), |j: int| trow@[j]@) == tt[r + 1].subrange(0, c as int),
            decreases row.len() - c,
        {
            let ghost rb = trow@;
            let t = inlines_to_chars(&row[c].content);
            trow.push(t);
            assert(tt[r + 1] == Seq::new(rows@[r as int]@.len(), |q: int| rst_inlines(rows@[r as int]@[q].content@)));
            assert(trow@[c as int]@ == tt[r + 1][c as int]);
            c += 1;
            assert forall|j: int| 0 <= j < c implies #[trigger] trow@[j]@ == tt[r + 1].subrange(0, c as int)[j] by {
                if j < c - 1 {
                    assert(trow@[j] == rb[j]);
                    assert(Seq::new(rb.len(), |q: int| rb[q]@)[j] == tt[r + 1].subrange(0, c - 1)[j]);
                }
            }
            assert(Seq::new(trow@.len(), |j: int| trow@[j]@) =~= tt[r + 1].subrange(0, c as int));
        }
        assert(Seq::new(trow@.len(), |j: int| trow@[j]@) =~= tt[r + 1]);
        let ghost tb = texts@;
        texts.push(trow);
        r += 1;
        assert forall|q: int| 0 <= q < r + 1 implies #[trigger] texts_view(texts@)[q] == tt.subrange(0, r + 1)[q] by {
            if q < r {
                assert(texts@[q] == tb[q]);
                assert(texts_view(tb)[q] == tt.subrange(0, r as int)[q]);
            } else {
                assert(texts_view(texts@)[q] =~= tt[r as int]);
            }
        }
        assert(texts_view(texts@) =~= tt.subrange(0, r + 1));
    }
    assert(tt.subrange(0, r + 1) =~= tt);
    let ghost ts = texts_view(texts@);
    let ghost sp = spans_view(spans@);
    let (owners, occupied, placed) = place_cells(&spans, num_cols);
    let ghost ow = owners_view(owners@);
    let mut widths: Vec<usize> = Vec::new();
    let mut k: usize = 0;
    while k < num_cols
        invariant
            k <= num_cols,
            widths@ == Seq::new(k as nat, |j: int| 3usize),
        decreases num_cols - k,
    {
        widths.push(3);
        k += 1;
        assert(widths@ =~= Seq::new(k as nat, |j: int| 3usize));
    }
    let ghost wtarget = fit_widths(widths@, placed@, 0, ts, ow, sp);
    let mut p: usize = 0;
    while p < placed.len()
        invariant
            p <= placed.len(),
            widths@.len() == num_cols,
            ts == texts_view(texts@),
            sp == spans_view(spans@),
            ow == owners_view(owners@),
            fit_widths(widths@, placed@, p as int, ts, ow, sp) == wtarget,
        decreases placed.len() - p,
    {
        let ghost w0 = widths@;
        let (ri, col, idx) = placed[p];
        let text_len = if ri < texts.len() && idx < texts[ri].len() {
            byte_len(&texts[ri][idx])
        } else {
            0
        };
        let cs = match owner_get(&owners, ri, col) {
            Some((cs, _, _)) => cs as usize,
            None => 1,
        };
        let cs = if ri < spans.len() && idx < spans[ri].len() {
            spans[ri][idx].0 as usize
        } else {
            cs
        };
        let min_width = if text_len > 1 {
            text_len
        } else {
            1
        };
        if col < widths.len() {
            if cs == 1 {
                if min_width > widths[col] {
                    widths.set(col, min_width);
                }
            } else {
                let current = spanned_width(&widths, col, cs);
                if min_width > current {
                    let w = sat_add(widths[col], min_width - current);
                    widths.set(col, w);
                }
            }
        }
        assert(widths@ == fit_width(w0, placed@[p as int], ts, ow, sp));
        p += 1;
    }
    assert(widths@ == grid_widths(headers@, rows@, num_cols as int));
    let ghost pre = out@;
    let ghost l0 = out@.len() as int;
    let ghost w = widths@;
    let ghost g = grid_view(occupied@);
    let ghost n = num_cols as int;
    let ghost has_rows = rows@.len() > 0;
    let ghost target = pre + grid_text(headers@, rows@, num_cols as int);
    assert(sp == table_spans_of(headers@, rows@));
    assert(ts == table_texts(headers@, rows@));
    push_all(out, &grid_separator(&widths, &owners, &occupied, 0, '-', true));
    out.push('\n');
    assert(out@.subrange(0, l0) =~= pre);
    assert(out@ + grid_lines(ts, ow, g, w, n, total as int, has_rows, 0) =~= target);
    let mut row_idx: usize = 0;
    while row_idx < total
        invariant
            row_idx <= total,
            widths@.len() == num_cols,
            out@.len() >= l0 + 3,
            out@.subrange(0, l0) == pre,
            out@[l0] == '+',
            out@.last() == '\n',
            out@[out@.len() - 2] == '+',
            pre == old(out)@,
            l0 == old(out)@.len(),
            w == widths@,
            g == grid_view(occupied@),
            ow == owners_view(owners@),
            ts == texts_view(texts@),
            n == num_cols,
            total == owners@.len(),
            has_rows == (rows@.len() > 0),
            out@ + grid_lines(ts, ow, g, w, n, total as int, has_rows, row_idx as int) == target,
        decreases total - row_idx,
    {
        let ghost line_start = out@;
        out.push('|');
        let ghost cells_start = out@;
        let ghost cells_target = cells_start + grid_cells(ts, ow, g, w, row_idx as int, n, 0);
        let mut col: usize = 0;
        while col < num_cols
            invariant
                col <= num_cols,
                widths@.len() == num_cols,
                out@.len() >= l0 + 3,
                out@.subrange(0, l0) == pre,
                out@[l0] == '+',
                0 <= l0,
                row_idx < total,
                w == widths@,
                g == grid_view(occupied@),
                ow == owners_view(owners@),
                ts == texts_view(texts@),
                n == num_cols,
                out@ + grid_cells(ts, ow, g, w, row_idx as int, n, col as int) == cells_target,
            decreases num_cols - col,
        {
            let ghost b = out@;
            let ghost c0 = col as int;
            assert(b.len() >= l0 + 3 && b[l0] == '+' && b.subrange(0, l0) == pre);
            match owner_get(&owners, row_idx, col) {
                Some((cs, _, idx)) => {
                    let cs = cs as usize;
                    let wd = spanned_width(&widths, col, cs);
                    let text = if row_idx < texts.len() && idx < texts[row_idx].len() {
                        copy(&texts[row_idx][idx])
                    } else {
                        Vec::new()
                    };
                    out.push(' ');
                    pad_right(out, &text, wd);
                    out.push(' ');
                    let next = if cs >= 1 {
                        sat_add(col, cs)
                    } else {
                        col + 1
                    };
                    col = if next < num_cols {
                        next
                    } else {
                        num_cols
                    };
                },
                None => {
                    out.push(' ');
                    pad_right(out, &Vec::new(), widths[col]);
                    out.push(' ');
                    col += 1;
                },
            }
            let ghost after_cell = out@;
            assert(after_cell =~= b + grid_cell(ts, ow, w, row_idx as int, n, c0).0);
            assert(col as int == grid_cell(ts, ow, w, row_idx as int, n, c0).1);
            if col < num_cols {
                if grid_get(&occupied, row_idx, col) {
                    let mut owner_col = col;
                    while owner_col > 0
                        invariant_except_break
                            back_owner(ow, g, row_idx as int, col as int, col as int) == back_owner(
                                ow,
                                g,
                                row_idx as int,
                                col as int,
                                owner_col as int,
                            ),
                        invariant
                            owner_col <= col,
                            g == grid_view(occupied@),
                            ow == owners_view(owners@),
                        ensures
                            owner_col == back_owner(ow, g, row_idx as int, col as int, col as int),
                        decreases owner_col,
                    {
                        owner_col -= 1;
                        if let Some((cs, _, _)) = owner_get(&owners, row_idx, owner_col) {
                            if span_reaches(owner_col, cs, col) {
                                break;
                            }
                        }
                        if !grid_get(&occupied, row_idx, owner_col) {
                            break;
                        }
                    }
                    let skip = match owner_get(&owners, row_idx, owner_col) {
                        Some((cs, _, _)) => span_reaches(owner_col, cs, col),
                        None => false,
                    };
                    if !skip {
                        out.push('|');
                    }
                } else {
                    out.push('|');
                }
            }
            proof {
                assert(out@ =~= after_cell + cell_boundary(ow, g, row_idx as int, col as int, n));
                assert(out@.subrange(0, b.len() as int) =~= b);
                assert(out@.len() >= b.len());
                assert(out@[l0] == out@.subrange(0, b.len() as int)[l0]);
                assert(out@.subrange(0, l0) =~= out@.subrange(0, b.len() as int).subrange(0, l0));
            }
        }
        let ghost before_rule = out@;
        push_str(out, "|\n");
        if row_idx == 0 && rows.len() > 0 {
            push_all(out, &grid_separator(&widths, &owners, &occupied, row_idx + 1, '=', false));
        } else if row_idx + 1 < total {
            push_all(out, &grid_separator(&widths, &owners, &occupied, row_idx + 1, '-', false));
        } else {
            push_all(out, &grid_separator(&widths, &owners, &occupied, row_idx + 1, '-', true));
        }
        out.push('\n');
        proof {
            assert(before_rule == cells_target);
            assert(out@ =~= line_start + seq!['|'] + grid_cells(ts, ow, g, w, row_idx as int, n, 0) + "|\n"@
                + grid_rule(ow, g, w, n, total as int, has_rows, row_idx as int) + seq!['\n']);
        }
        row_idx += 1;
    }
}

/// Whether a cell of row `row` that starts at or before column `col` spans
/// past the boundary after `col`.
/// A cell of row `row` that starts at `start` spans past the boundary after
/// `col`.
pub open spec fn crosses_from(g: Seq<Seq<Option<(u32, u32, usize)>>>, row: int, start: int, col: int) -> bool {
    match owner_of(g, row, start) {
        Some((cs, _, _)) => start + cs > col + 1,
        None => false,
    }
}

fn colspan_crosses(owners: &Vec<Vec<Option<(u32, u32, usize)>>>, row: usize, col: usize) -> (b: bool)
    ensures
        b == exists|start: int| 0 <= start <= col && #[trigger] crosses_from(owners_view(owners@), row as int, start, col as int),
{
    let mut start: usize = 0;
    while start <= col
        invariant_except_break
            start <= col + 1,
            forall|s: int| 0 <= s < start ==> !#[trigger] crosses_from(owners_view(owners@), row as int, s, col as int),
        ensures
            forall|s: int| 0 <= s <= col ==> !#[trigger] crosses_from(owners_view(owners@), row as int, s, col as int),
        decreases col + 1 - start,
    {
        if let Some((cs, _, _)) = owner_get(owners, row, start) {
            if span_reaches(start, cs, col) && (start > col || cs as usize - (col - start) > 1) {
                assert(crosses_from(owners_view(owners@), row as int, start as int, col as int));
                return true;
            }
        }
        if start == col {
            break;
        }
        start += 1;
    }
    false
}

/// A separator line of a grid table above row `next_row`: dashes (or `fill`)
/// under each column, spaces where a row span crosses it, and `+` at column
/// boundaries unless a column span crosses them on both sides.
/// The first `k` columns of a border line: `fill` over each column's width
/// and two more, and `+` between columns.
pub open spec fn border_pieces(w: Seq<usize>, fill: char, k: int) -> Seq<char>
    decreases k,
{
    if k <= 0 {
        seq![]
    } else {
        let c = k - 1;
        border_pieces(w, fill, c) + repeat_spec(fill, capped(w[c] + 2) as nat) + (if c + 1 < w.len() {
            seq!['+']
        } else {
            seq![]
        })
    }
}

/// A cell of row `row` crosses the boundary after column `col`.
pub open spec fn crosses(g: Seq<Seq<Option<(u32, u32, usize)>>>, row: int, col: int) -> bool {
    exists|start: int| 0 <= start <= col && #[trigger] crosses_from(g, row, start, col)
}

/// Looking up from row `r` (exclusive) in column `col` for the cell above
/// that owns the position: whether its row span reaches row `next_row`;
/// the search stops at a position that is not marked.
pub open spec fn spans_down(
    ow: Seq<Seq<Option<(u32, u32, usize)>>>,
    g: Seq<Seq<bool>>,
    next_row: int,
    col: int,
    r: int,
) -> bool
    decreases r,
{
    if r <= 0 {
        false
    } else {
        match owner_of(ow, r - 1, col) {
            Some((_, rs, _)) => r - 1 + rs > next_row,
            None => if !grid_at(g, r - 1, col) {
                false
            } else {
                spans_down(ow, g, next_row, col, r - 1)
            },
        }
    }
}

/// The first `k` columns of the separator line above row `next_row`: `fill`
/// (or spaces, where a row span crosses the line) over each column's width
/// and two more, and between columns `fill` where a column span crosses the
/// boundary above and below the line, else `+`.
pub open spec fn separator_pieces(
    w: Seq<usize>,
    ow: Seq<Seq<Option<(u32, u32, usize)>>>,
    g: Seq<Seq<bool>>,
    next_row: int,
    fill: char,
    is_border: bool,
    k: int,
) -> Seq<char>
    decreases k,
{
    if k <= 0 {
        seq![]
    } else {
        let c = k - 1;
        let total = ow.len() as int;
        let across = !is_border && next_row < total && grid_at(g, next_row, c) && spans_down(ow, g, next_row, c, next_row);
        let above = next_row > 0 && next_row <= total && crosses(ow, next_row - 1, c);
        let below = !is_border && next_row < total && crosses(ow, next_row, c);
        separator_pieces(w, ow, g, next_row, fill, is_border, c) + repeat_spec(
            if across { ' ' } else { fill },
            capped(w[c] + 2) as nat,
        ) + (if c + 1 < w.len() {
            if above && below && !is_border { seq![fill] } else { seq!['+'] }
        } else {
            seq![]
        })
    }
}

fn grid_separator(
    widths: &Vec<usize>,
    owners: &Vec<Vec<Option<(u32, u32, usize)>>>,
    occupied: &Vec<Vec<bool>>,
    next_row: usize,
    fill: char,
    is_border: bool,
) -> (result: Vec<char>)
    ensures
        result@.len() >= 2,
        result@[0] == '+',
        result@.last() == '+',
        is_border ==> result@ == seq!['+'] + border_pieces(widths@, fill, widths@.len() as int) + seq!['+'],
        result@ == seq!['+'] + separator_pieces(
            widths@,
            owners_view(owners@),
            grid_view(occupied@),
            next_row as int,
            fill,
            is_border,
            widths@.len() as int,
        ) + seq!['+'],
{
    let num_cols = widths.len();
    let total = owners.len();
    let mut result: Vec<char> = Vec::new();
    result.push('+');
    let mut col: usize = 0;
    while col < num_cols
        invariant
            col <= num_cols,
            num_cols == widths@.len(),
            result@.len() >= 1,
            result@[0] == '+',
            is_border ==> result@ == seq!['+'] + border_pieces(widths@, fill, col as int),
            total == owners@.len(),
            result@ == seq!['+'] + separator_pieces(
                widths@,
                owners_view(owners@),
                grid_view(occupied@),
                next_row as int,
                fill,
                is_border,
                col as int,
            ),
        decreases num_cols - col,
    {
        let ghost before = result@;
        let ghost ow = owners_view(owners@);
        let ghost g = grid_view(occupied@);
        let mut across = false;
        if !is_border && next_row < total && grid_get(occupied, next_row, col) {
            let mut r = next_row;
            while r > 0
                invariant_except_break
                    r <= next_row,
                    !across,
                    spans_down(ow, g, next_row as int, col as int, next_row as int) == spans_down(ow, g, next_row as int, col as int, r as int),
                invariant
                    ow == owners_view(owners@),
                    g == grid_view(occupied@),
                ensures
                    across == spans_down(ow, g, next_row as int, col as int, next_row as int),
                decreases r,
            {
                r -= 1;
                if let Some((_, rs, _)) = owner_get(owners, r, col) {
                    if span_reaches(r, rs, next_row) {
                        across = true;
                    }
                    break;
                }
                if !grid_get(occupied, r, col) {
                    break;
                }
            }
        }
        let w = sat_add(widths[col], 2);
        push_all(
            &mut result,
            &repeat(
                if across {
                    ' '
                } else {
                    fill
                },
                w,
            ),
        );
        if col + 1 < num_cols {
            let above = next_row > 0 && next_row <= total && colspan_crosses(owners, next_row - 1, col);
            let below = !is_border && next_row < total && colspan_crosses(owners, next_row, col);
            if above && below && !is_border {
                result.push(fill);
            } else {
                result.push('+');
            }
        }
        proof {
            if is_border {
                assert(!across);
                assert(result@ =~= seq!['+'] + border_pieces(widths@, fill, col + 1));
            }
            assert(result@ =~= seq!['+'] + separator_pieces(widths@, ow, g, next_row as int, fill, is_border, col + 1));
        }
        col += 1;
    }
    result.push('+');
    result
}

/// The text that inline content is written as.
fn inlines_to_chars(inlines: &Vec<Inline>) -> (v: Vec<char>)
    ensures
        v@ == rst_inlines(inlines@),
{
    let mut v: Vec<char> = Vec::new();
    emit_inlines(&mut v, inlines);
    assert(v@ =~= rst_inlines(inlines@));
    v
}

fn emit_inlines(out: &mut Vec<char>, inlines: &Vec<Inline>)
    ensures
        final(out)@ == old(out)@ + rst_inlines(inlines@),
    decreases inlines, 1nat,
{
    let ghost start = out@;
    let mut i: usize = 0;
    while i < inlines.len()
        invariant
            i <= inlines.len(),
            out@ == start + rst_inlines(inlines@.subrange(0, i as int)),
        decreases inlines.len() - i,
    {
        assert(decreases_to!(inlines => inlines@[i as int]));
        emit_inline(out, &inlines[i]);
        proof {
            assert(inlines@.subrange(0, i + 1).drop_last() =~= inlines@.subrange(0, i as int));
            assert(out@ =~= start + rst_inlines(inlines@.subrange(0, i + 1)));
        }
        i += 1;
    }
    assert(inlines@.subrange(0, inlines@.len() as int) =~= inlines@);
}

fn emit_wrapped(out: &mut Vec<char>, open: &str, content: &Vec<Inline>, close: &str)
    ensures
        final(out)@ == old(out)@ + open@ + rst_inlines(content@) + close@,
    decreases content, 2nat,
{
    push_str(out, open);
    emit_inlines(out, content);
    push_str(out, close);
}

fn emit_inline(out: &mut Vec<char>, inline: &Inline)
    ensures
        final(out)@ == old(out)@ + rst_inline(*inline),
    decreases inline, 0nat,
{
    let ghost start = out@;
    match inline {
        Inline::Text(t) => push_string(out, t),
        Inline::Bold(c) => emit_wrapped(out, "**", c, "**"),
        Inline::Italic(c) => emit_wrapped(out, "*", c, "*"),
        Inline::BoldItalic(c) => emit_wrapped(out, "***", c, "***"),
        Inline::Strikethrough(c) => emit_wrapped(out, "~~", c, "~~"),
        Inline::Superscript(c) => emit_wrapped(out, "\\ :sup:`", c, "`\\ "),
        Inline::Subscript(c) => emit_wrapped(out, "\\ :sub:`", c, "`\\ "),
        Inline::InlineCode(code) => {
            push_str(out, "``");
            push_string(out, code);
            push_str(out, "``");
        },
        Inline::Link { url, text, .. } => {
            let mut shown: Vec<char> = Vec::new();
            emit_inlines(&mut shown, text);
            assert(shown@ =~= rst_inlines(text@));
            if eq(&shown, &chars_of_string(url)) {
                push_string(out, url);
            } else {
                push_str(out, "`");
                push_all(out, &shown);
                push_str(out, " <");
                push_string(out, url);
                push_str(out, ">`_");
            }
        },
        Inline::Image { alt, .. } => {
            let mut shown: Vec<char> = Vec::new();
            emit_inlines(&mut shown, alt);
            assert(shown@ =~= rst_inlines(alt@));
            push_str(out, "|");
            push_all(out, &shown);
            push_str(out, "|");
        },
        Inline::HardLineBreak => push_str(out, "\n| "),
        Inline::SoftLineBreak => out.push('\n'),
        Inline::RawInline { content, .. } => push_string(out, content),
    }
    assert(out@ =~= start + rst_inline(*inline));
}

} // verus!
