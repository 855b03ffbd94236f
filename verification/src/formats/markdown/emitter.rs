//! Markdown writer.
use vstd::prelude::*;

use crate::ast::{Block, ColumnAlignment, DescriptionItem, Document, Inline, ListItem, TableCell};
use crate::error::EmitError;
use crate::format::Emitter;
use crate::formats::common::{empty_grid, expand_spec, grid_view, GridSlot, bool_grid, ends_with_single_newline, ensure_blank_line, expand_row, finish_output, finished, table_has_spans, table_spans, with_blank_line};
use crate::text::{chars_of, chars_of_string, contains_char, copy, decimal, decimal_chars, lines, lines_spec, push_all, push_str, push_string, repeat, repeat_spec, views};

verus! {

pub struct MarkdownEmitter;

impl Emitter for MarkdownEmitter {
    fn emit(&self, doc: &Document) -> (r: Result<String, EmitError>)
        ensures
            (r matches Ok(s) && s@ == finished(
                md_blocks(seq![], seq![], doc.children@),
            )),
            r matches Ok(s) && ends_with_single_newline(s@),
    {
        Ok(emit_markdown(&doc.children))
    }
}

// ---------------------------------------------------------------------------
// The text written
// ---------------------------------------------------------------------------

/// The title part of a link or image target.
pub open spec fn md_title(title: Option<String>) -> Seq<char> {
    match title {
        Some(t) => " \""@ + t@ + "\""@,
        None => seq![],
    }
}

/// How an inline node is written.
pub open spec fn md_inline(x: Inline) -> Seq<char>
    decreases x, 0nat,
{
    match x {
        Inline::Text(t) => t@,
        Inline::Bold(c) => "**"@ + md_inlines(c@) + "**"@,
        Inline::Italic(c) => "*"@ + md_inlines(c@) + "*"@,
        Inline::BoldItalic(c) => "***"@ + md_inlines(c@) + "***"@,
        Inline::Strikethrough(c) => "~~"@ + md_inlines(c@) + "~~"@,
        Inline::Superscript(c) => "^"@ + md_inlines(c@) + "^"@,
        Inline::Subscript(c) => "~"@ + md_inlines(c@) + "~"@,
        Inline::InlineCode(code) => if code@.contains('`') {
            "`` "@ + code@ + " ``"@
        } else {
            "`"@ + code@ + "`"@
        },
        Inline::Link { url, text, title } => "["@ + md_inlines(text@) + "]("@ + url@ + md_title(title)
            + ")"@,
        Inline::Image { url, alt, title, link } => match link {
            Some(l) => "[!["@ + md_inlines(alt@) + "]("@ + url@ + md_title(title) + ")]("@ + l@ + ")"@,
            None => "!["@ + md_inlines(alt@) + "]("@ + url@ + md_title(title) + ")"@,
        },
        Inline::HardLineBreak => "  \n"@,
        Inline::SoftLineBreak => seq!['\n'],
        Inline::RawInline { content, .. } => content@,
    }
}

pub open spec fn md_inlines(s: Seq<Inline>) -> Seq<char>
    decreases s, 1nat,
{
    if s.len() == 0 {
        seq![]
    } else {
        md_inlines(s.drop_last()) + md_inline(s.last())
    }
}

/// A row of a table without spans: each cell between bars.
pub open spec fn md_cells(cells: Seq<TableCell>) -> Seq<char>
    decreases cells.len(),
{
    if cells.len() == 0 {
        seq![]
    } else {
        md_cells(cells.drop_last()) + " "@ + md_inlines(cells.last().content@) + " |"@
    }
}

pub open spec fn md_rows(rows: Seq<Vec<TableCell>>) -> Seq<char>
    decreases rows.len(),
{
    if rows.len() == 0 {
        seq![]
    } else {
        md_rows(rows.drop_last()) + "|"@ + md_cells(rows.last()@) + seq!['\n']
    }
}

/// The delimiter row cell of an alignment.
pub open spec fn alignment_marker(a: ColumnAlignment) -> Seq<char> {
    (match a {
        ColumnAlignment::Left => " :--- "@,
        ColumnAlignment::Center => " :---: "@,
        ColumnAlignment::Right => " ---: "@,
        ColumnAlignment::Default => " --- "@,
    }) + seq!['|']
}

/// The delimiter row markers of the first `n` columns.
pub open spec fn alignment_markers(alignments: Seq<ColumnAlignment>, n: int) -> Seq<char>
    decreases n,
{
    if n <= 0 {
        seq![]
    } else {
        alignment_markers(alignments, n - 1) + alignment_marker(
            if n - 1 < alignments.len() {
                alignments[n - 1]
            } else {
                ColumnAlignment::Default
            },
        )
    }
}

/// A table without spans: a pipe table.
pub open spec fn md_table(
    headers: Seq<TableCell>,
    alignments: Seq<ColumnAlignment>,
    rows: Seq<Vec<TableCell>>,
) -> Seq<char> {
    "|"@ + md_cells(headers) + seq!['\n'] + "|"@ + alignment_markers(alignments, headers.len() as int)
        + seq!['\n'] + md_rows(rows)
}

/// A quoted text: each line behind `> `, empty lines as `>`.
pub open spec fn quoted(ls: Seq<Seq<char>>) -> Seq<char>
    decreases ls.len(),
{
    if ls.len() == 0 {
        seq![]
    } else {
        quoted(ls.drop_last()) + if ls.last().len() == 0 {
            ">\n"@
        } else {
            "> "@ + ls.last() + seq!['\n']
        }
    }
}

/// The definition paragraphs of one definition.
pub open spec fn md_definition(blocks: Seq<Block>) -> Seq<char>
    decreases blocks.len(),
{
    if blocks.len() == 0 {
        seq![]
    } else {
        md_definition(blocks.drop_last()) + match blocks.last() {
            Block::Paragraph { content } => ":   "@ + md_inlines(content@) + seq!['\n'],
            _ => seq![],
        }
    }
}

pub open spec fn md_definitions(defs: Seq<Vec<Block>>) -> Seq<char>
    decreases defs.len(),
{
    if defs.len() == 0 {
        seq![]
    } else {
        md_definitions(defs.drop_last()) + md_definition(defs.last()@)
    }
}

pub open spec fn md_descriptions(items: Seq<DescriptionItem>) -> Seq<char>
    decreases items.len(),
{
    if items.len() == 0 {
        seq![]
    } else {
        md_descriptions(items.drop_last()) + (if items.len() > 1 {
            seq!['\n']
        } else {
            seq![]
        }) + md_inlines(items.last().term@) + seq!['\n'] + md_definitions(items.last().definitions@)
    }
}

/// Blocks written after `prev` at list indentation `indent`: each block but
/// the first follows a blank line, and empty paragraphs after the first
/// block are left out.
pub open spec fn md_blocks(prev: Seq<char>, indent: Seq<char>, s: Seq<Block>) -> Seq<char>
    decreases s, 4nat,
{
    if s.len() == 0 {
        prev
    } else {
        let before = md_blocks(prev, indent, s.drop_last());
        let b = s.last();
        if s.len() > 1 && (b matches Block::Paragraph { content } && content@.len() == 0) {
            before
        } else if s.len() > 1 {
            with_blank_line(before) + md_body(indent, b)
        } else {
            before + md_body(indent, b)
        }
    }
}

/// The text of a block at list indentation `indent`.
pub open spec fn md_body(indent: Seq<char>, b: Block) -> Seq<char>
    decreases b, 3nat,
{
    match b {
        Block::Heading { level, content } => repeat_spec('#', level as nat) + " "@ + md_inlines(
            content@,
        ) + seq!['\n'],
        Block::Paragraph { content } => if content@.len() > 0 {
            md_inlines(content@) + seq!['\n']
        } else {
            seq![]
        },
        Block::CodeBlock { language, content } => "```"@ + (match language {
            Some(l) => l@,
            None => seq![],
        }) + seq!['\n'] + content@ + seq!['\n'] + "```\n"@,
        Block::BlockQuote { children } => quoted(
            lines_spec(finished(md_blocks(seq![], seq![], children@))),
        ),
        Block::UnorderedList { items } => md_unordered(indent, items@),
        Block::OrderedList { start, items } => md_ordered(indent, start, items@),
        Block::DescriptionList { items } => md_descriptions(items@),
        Block::Table { headers, alignments, rows } => if table_spans(headers@, rows@) {
            md_span_table(headers@, alignments@, rows@, alignments@.len() as int)
        } else {
            md_table(headers@, alignments@, rows@)
        },
        Block::HorizontalRule => "---\n"@,
        Block::RawBlock { content, .. } => content@ + seq!['\n'],
    }
}

/// An unordered list at indentation `indent`.
pub open spec fn md_unordered(indent: Seq<char>, items: Seq<ListItem>) -> Seq<char>
    decreases items, 2nat,
{
    if items.len() == 0 {
        seq![]
    } else {
        md_unordered(indent, items.drop_last()) + md_item(
            indent,
            "- "@,
            indent + "  "@,
            items.last().content@,
        )
    }
}

/// The number of item `i` of a list starting at `start` (wrapping at
/// `u32::MAX`).
pub open spec fn item_number(start: u32, i: int) -> u32 {
    let k = i as u32;
    if start + k > u32::MAX {
        (start + k - 4294967296) as u32
    } else {
        (start + k) as u32
    }
}

/// An ordered list at indentation `indent`.
pub open spec fn md_ordered(indent: Seq<char>, start: u32, items: Seq<ListItem>) -> Seq<char>
    decreases items, 2nat,
{
    if items.len() == 0 {
        seq![]
    } else {
        md_ordered(indent, start, items.drop_last()) + md_item(
            indent,
            decimal(item_number(start, items.len() - 1) as nat) + ". "@,
            indent + "   "@,
            items.last().content@,
        )
    }
}

/// A list item: its first paragraph after the marker, nested lists one level
/// deeper, other blocks as they are; later paragraphs are left out.
pub open spec fn md_item(indent: Seq<char>, marker: Seq<char>, inner: Seq<char>, blocks: Seq<Block>) -> Seq<
    char,
>
    decreases blocks, 1nat,
{
    if blocks.len() == 0 {
        seq![]
    } else {
        md_item(indent, marker, inner, blocks.drop_last()) + md_item_block(
            indent,
            marker,
            inner,
            blocks.last(),
            blocks.len() == 1,
        )
    }
}

pub open spec fn md_item_block(
    indent: Seq<char>,
    marker: Seq<char>,
    inner: Seq<char>,
    b: Block,
    first: bool,
) -> Seq<char>
    decreases b, 5nat,
{
    match b {
        Block::Paragraph { content } => if first {
            indent + marker + md_inlines(content@) + seq!['\n']
        } else {
            seq![]
        },
        Block::UnorderedList { items } => md_unordered(inner, items@),
        Block::OrderedList { start, items } => md_ordered(inner, start, items@),
        _ => md_body(indent, b),
    }
}

// ---------------------------------------------------------------------------
// Writing
// ---------------------------------------------------------------------------

/// Writes blocks as Markdown; the text ends with exactly one newline.
pub fn emit_markdown(blocks: &Vec<Block>) -> (s: String)
    ensures
        s@ == finished(md_blocks(seq![], seq![], blocks@)),
        ends_with_single_newline(s@),
    decreases blocks, 5nat,
{
    let mut ctx = MdCtx { out: Vec::new(), indent: Vec::new() };
    emit_blocks(&mut ctx, blocks);
    finish_output(&ctx.out)
}

struct MdCtx {
    out: Vec<char>,
    indent: Vec<char>,
}

fn emit_blocks(ctx: &mut MdCtx, blocks: &Vec<Block>)
    ensures
        final(ctx).indent@ == old(ctx).indent@,
        final(ctx).out@ == md_blocks(
            old(ctx).out@,
            old(ctx).indent@,
            blocks@,
        ),
    decreases blocks, 4nat,
{
    let ghost start = ctx.out@;
    let ghost indent = ctx.indent@;
    let mut i: usize = 0;
    assert(blocks@.subrange(0, 0) =~= seq![]);
    while i < blocks.len()
        invariant
            i <= blocks.len(),
            ctx.indent@ == indent,
            ctx.out@ == md_blocks(
                start,
                indent,
                blocks@.subrange(0, i as int),
            ),
        decreases blocks.len() - i,
    {
        let block = &blocks[i];
        assert(decreases_to!(blocks => blocks@[i as int]));
        proof {
            let next = blocks@.subrange(0, i + 1);
            assert(next.drop_last() =~= blocks@.subrange(0, i as int));
        }
        let skip_it = match block {
            Block::Paragraph { content } => content.len() == 0,
            _ => false,
        };
        if i > 0 && skip_it {
            i += 1;
            continue;
        }
        if i > 0 {
            ensure_blank_line(&mut ctx.out);
        }
        emit_block(ctx, block);
        i += 1;
    }
    assert(blocks@.subrange(0, blocks@.len() as int) =~= blocks@);
}

fn emit_block(ctx: &mut MdCtx, block: &Block)
    ensures
        final(ctx).indent@ == old(ctx).indent@,
        final(ctx).out@ == old(ctx).out@ + md_body(
            old(ctx).indent@,
            *block,
        ),
    decreases block, 3nat,
{
    let ghost start = ctx.out@;
    match block {
        Block::Heading { level, content } => {
            push_all(&mut ctx.out, &repeat('#', *level as usize));
            push_str(&mut ctx.out, " ");
            emit_inlines(ctx, content);
            ctx.out.push('\n');
        },
        Block::Paragraph { content } => {
            if content.len() > 0 {
                emit_inlines(ctx, content);
                ctx.out.push('\n');
            }
        },
        Block::CodeBlock { language, content } => {
            push_str(&mut ctx.out, "```");
            if let Some(lang) = language {
                push_string(&mut ctx.out, lang);
            }
            ctx.out.push('\n');
            push_string(&mut ctx.out, content);
            ctx.out.push('\n');
            push_str(&mut ctx.out, "```\n");
        },
        Block::BlockQuote { children } => {
            let inner = emit_markdown(children);
            push_quoted(&mut ctx.out, &chars_of_string(&inner));
        },
        Block::UnorderedList { items } => emit_unordered_list(ctx, items),
        Block::OrderedList { start, items } => emit_ordered_list(ctx, *start, items),
        Block::DescriptionList { items } => emit_descriptions(&mut ctx.out, items),
        Block::Table { headers, alignments, rows } => emit_table(ctx, headers, alignments, rows),
        Block::HorizontalRule => push_str(&mut ctx.out, "---\n"),
        Block::RawBlock { content, .. } => {
            push_string(&mut ctx.out, content);
            ctx.out.push('\n');
        },
    }
    assert(ctx.out@ =~= start + md_body(ctx.indent@, *block));
}

/// Writes each line of `text` behind `> ` (an empty line as `>`).
fn push_quoted(out: &mut Vec<char>, text: &Vec<char>)
    ensures
        final(out)@ == old(out)@ + quoted(lines_spec(text@)),
{
    let ghost start = out@;
    let ls = lines(text);
    let ghost views_ls = views(ls@);
    let mut k: usize = 0;
    while k < ls.len()
        invariant
            k <= ls.len(),
            views_ls == views(ls@),
            views_ls.len() == ls@.len(),
            out@ == start + quoted(views_ls.subrange(0, k as int)),
        decreases ls.len() - k,
    {
        if ls[k].len() == 0 {
            push_str(out, ">\n");
        } else {
            push_str(out, "> ");
            push_all(out, &ls[k]);
            out.push('\n');
        }
        proof {
            assert(views_ls.subrange(0, k + 1).drop_last() =~= views_ls.subrange(0, k as int));
            assert(views_ls[k as int] == ls@[k as int]@);
            assert(out@ =~= start + quoted(views_ls.subrange(0, k + 1)));
        }
        k += 1;
    }
    assert(views_ls.subrange(0, views_ls.len() as int) =~= views_ls);
}

fn emit_descriptions(out: &mut Vec<char>, items: &Vec<DescriptionItem>)
    ensures
        final(out)@ == old(out)@ + md_descriptions(items@),
{
    let ghost start = out@;
    let mut j: usize = 0;
    while j < items.len()
        invariant
            j <= items.len(),
            out@ == start + md_descriptions(items@.subrange(0, j as int)),
        decreases items.len() - j,
    {
        let item = &items[j];
        if j > 0 {
            out.push('\n');
        }
        emit_inlines_to(out, &item.term);
        out.push('\n');
        let ghost defs_start = out@;
        let mut d: usize = 0;
        while d < item.definitions.len()
            invariant
                d <= item.definitions.len(),
                out@ == defs_start + md_definitions(item.definitions@.subrange(0, d as int)),
            decreases item.definitions.len() - d,
        {
            let defs = &item.definitions[d];
            let ghost def_start = out@;
            let mut e: usize = 0;
            while e < defs.len()
                invariant
                    e <= defs.len(),
                    out@ == def_start + md_definition(defs@.subrange(0, e as int)),
                decreases defs.len() - e,
            {
                match &defs[e] {
                    Block::Paragraph { content } => {
                        push_str(out, ":   ");
                        emit_inlines_to(out, content);
                        out.push('\n');
                    },
                    _ => {},
                }
                proof {
                    assert(defs@.subrange(0, e + 1).drop_last() =~= defs@.subrange(0, e as int));
                    assert(out@ =~= def_start + md_definition(defs@.subrange(0, e + 1)));
                }
                e += 1;
            }
            proof {
                assert(defs@.subrange(0, defs@.len() as int) =~= defs@);
                assert(item.definitions@.subrange(0, d + 1).drop_last() =~= item.definitions@.subrange(0, d as int));
                assert(out@ =~= defs_start + md_definitions(item.definitions@.subrange(0, d + 1)));
            }
            d += 1;
        }
        proof {
            assert(item.definitions@.subrange(0, item.definitions@.len() as int) =~= item.definitions@);
            assert(items@.subrange(0, j + 1).drop_last() =~= items@.subrange(0, j as int));
            assert(out@ =~= start + md_descriptions(items@.subrange(0, j + 1)));
        }
        j += 1;
    }
    assert(items@.subrange(0, items@.len() as int) =~= items@);
}

/// Writes one block of a list item: the first paragraph after the marker,
/// nested lists at the inner indentation, other blocks as they are; later
/// paragraphs are left out.
fn emit_item_block(ctx: &mut MdCtx, block: &Block, marker: &Vec<char>, inner_indent: &Vec<char>, first: bool)
    ensures
        final(ctx).indent@ == old(ctx).indent@,
        final(ctx).out@ == old(ctx).out@ + md_item_block(
            old(ctx).indent@,
            marker@,
            inner_indent@,
            *block,
            first,
        ),
    decreases block, 5nat,
{
    let ghost start = ctx.out@;
    let outer = copy(&ctx.indent);
    match block {
        Block::Paragraph { content } => {
            if first {
                push_all(&mut ctx.out, &outer);
                push_all(&mut ctx.out, marker);
                emit_inlines(ctx, content);
                ctx.out.push('\n');
            }
        },
        Block::UnorderedList { items } => {
            ctx.indent = copy(inner_indent);
            emit_unordered_list(ctx, items);
            ctx.indent = copy(&outer);
        },
        Block::OrderedList { start, items } => {
            ctx.indent = copy(inner_indent);
            emit_ordered_list(ctx, *start, items);
            ctx.indent = copy(&outer);
        },
        _ => emit_block(ctx, block),
    }
    assert(ctx.out@ =~= start + md_item_block(
        outer@,
        marker@,
        inner_indent@,
        *block,
        first,
    ));
}

/// Writes a list item.
fn emit_item(ctx: &mut MdCtx, item: &ListItem, marker: &Vec<char>, inner_indent: &Vec<char>)
    ensures
        final(ctx).indent@ == old(ctx).indent@,
        final(ctx).out@ == old(ctx).out@ + md_item(
            old(ctx).indent@,
            marker@,
            inner_indent@,
            item.content@,
        ),
    decreases item, 0nat,
{
    let ghost start = ctx.out@;
    let ghost indent = ctx.indent@;
    let mut j: usize = 0;
    while j < item.content.len()
        invariant
            j <= item.content.len(),
            ctx.indent@ == indent,
            ctx.out@ == start + md_item(
                indent,
                marker@,
                inner_indent@,
                item.content@.subrange(0, j as int),
            ),
        decreases item.content.len() - j,
    {
        let block = &item.content[j];
        assert(decreases_to!(item => item.content));
        assert(decreases_to!(item.content => item.content@[j as int]));
        proof {
        }
        emit_item_block(ctx, block, marker, inner_indent, j == 0);
        proof {
            assert(item.content@.subrange(0, j + 1).drop_last() =~= item.content@.subrange(0, j as int));
            assert(ctx.out@ =~= start + md_item(
                indent,
                marker@,
                inner_indent@,
                item.content@.subrange(0, j + 1),
            ));
        }
        j += 1;
    }
    assert(item.content@.subrange(0, item.content@.len() as int) =~= item.content@);
}

fn emit_unordered_list(ctx: &mut MdCtx, items: &Vec<ListItem>)
    ensures
        final(ctx).indent@ == old(ctx).indent@,
        final(ctx).out@ == old(ctx).out@ + md_unordered(
            old(ctx).indent@,
            items@,
        ),
    decreases items, 2nat,
{
    let ghost start = ctx.out@;
    let ghost indent = ctx.indent@;
    let mut inner = copy(&ctx.indent);
    push_str(&mut inner, "  ");
    let marker = chars_of("- ");
    let mut i: usize = 0;
    while i < items.len()
        invariant
            i <= items.len(),
            ctx.indent@ == indent,
            inner@ == indent + "  "@,
            marker@ == "- "@,
            ctx.out@ == start + md_unordered(
                indent,
                items@.subrange(0, i as int),
            ),
        decreases items.len() - i,
    {
        assert(decreases_to!(items => items@[i as int]));
        proof {
        }
        emit_item(ctx, &items[i], &marker, &inner);
        proof {
            assert(items@.subrange(0, i + 1).drop_last() =~= items@.subrange(0, i as int));
            assert(ctx.out@ =~= start + md_unordered(
                indent,
                items@.subrange(0, i + 1),
            ));
        }
        i += 1;
    }
    assert(items@.subrange(0, items@.len() as int) =~= items@);
}

fn emit_ordered_list(ctx: &mut MdCtx, start_number: u32, items: &Vec<ListItem>)
    ensures
        final(ctx).indent@ == old(ctx).indent@,
        final(ctx).out@ == old(ctx).out@ + md_ordered(
            old(ctx).indent@,
            start_number,
            items@,
        ),
    decreases items, 2nat,
{
    let ghost start = ctx.out@;
    let ghost indent = ctx.indent@;
    let mut inner = copy(&ctx.indent);
    push_str(&mut inner, "   ");
    let mut i: usize = 0;
    while i < items.len()
        invariant
            i <= items.len(),
            ctx.indent@ == indent,
            inner@ == indent + "   "@,
            ctx.out@ == start + md_ordered(
                indent,
                start_number,
                items@.subrange(0, i as int),
            ),
        decreases items.len() - i,
    {
        assert(decreases_to!(items => items@[i as int]));
        proof {
        }
        #[verifier::truncate]
        let offset = i as u32;
        let num = start_number.wrapping_add(offset);
        assert(num == item_number(start_number, i as int));
        let mut marker = decimal_chars(num as u64);
        push_str(&mut marker, ". ");
        emit_item(ctx, &items[i], &marker, &inner);
        proof {
            assert(items@.subrange(0, i + 1).drop_last() =~= items@.subrange(0, i as int));
            assert(ctx.out@ =~= start + md_ordered(
                indent,
                start_number,
                items@.subrange(0, i + 1),
            ));
        }
        i += 1;
    }
    assert(items@.subrange(0, items@.len() as int) =~= items@);
}

fn push_alignment_marker(out: &mut Vec<char>, a: ColumnAlignment)
    ensures
        final(out)@ == old(out)@ + alignment_marker(a),
{
    let ghost start = out@;
    match a {
        ColumnAlignment::Left => push_str(out, " :--- "),
        ColumnAlignment::Center => push_str(out, " :---: "),
        ColumnAlignment::Right => push_str(out, " ---: "),
        ColumnAlignment::Default => push_str(out, " --- "),
    }
    out.push('|');
    assert(out@ =~= start + alignment_marker(a));
}

fn emit_cells(out: &mut Vec<char>, cells: &Vec<TableCell>)
    ensures
        final(out)@ == old(out)@ + md_cells(cells@),
{
    let ghost start = out@;
    let mut c: usize = 0;
    while c < cells.len()
        invariant
            c <= cells.len(),
            out@ == start + md_cells(cells@.subrange(0, c as int)),
        decreases cells.len() - c,
    {
        push_str(out, " ");
        emit_inlines_to(out, &cells[c].content);
        push_str(out, " |");
        proof {
            assert(cells@.subrange(0, c + 1).drop_last() =~= cells@.subrange(0, c as int));
            assert(out@ =~= start + md_cells(cells@.subrange(0, c + 1)));
        }
        c += 1;
    }
    assert(cells@.subrange(0, cells@.len() as int) =~= cells@);
}

fn emit_table(
    ctx: &mut MdCtx,
    headers: &Vec<TableCell>,
    alignments: &Vec<ColumnAlignment>,
    rows: &Vec<Vec<TableCell>>,
)
    ensures
        final(ctx).indent@ == old(ctx).indent@,
        final(ctx).out@ == old(ctx).out@ + if table_spans(headers@, rows@) {
            md_span_table(headers@, alignments@, rows@, alignments@.len() as int)
        } else {
            md_table(headers@, alignments@, rows@)
        },
    decreases headers, 0nat,
{
    if table_has_spans(headers, rows) {
        emit_table_with_spans(&mut ctx.out, headers, alignments, rows, alignments.len());
    } else {
        emit_pipe_table(&mut ctx.out, headers, alignments, rows);
    }
}

/// Writes a table without spans as a pipe table.
fn emit_pipe_table(
    out: &mut Vec<char>,
    headers: &Vec<TableCell>,
    alignments: &Vec<ColumnAlignment>,
    rows: &Vec<Vec<TableCell>>,
)
    ensures
        final(out)@ == old(out)@ + md_table(headers@, alignments@, rows@),
{
    let ghost start = out@;
    push_str(out, "|");
    emit_cells(out, headers);
    out.push('\n');
    push_str(out, "|");
    let ghost marks = out@;
    let mut i: usize = 0;
    while i < headers.len()
        invariant
            i <= headers.len(),
            out@ == marks + alignment_markers(alignments@, i as int),
        decreases headers.len() - i,
    {
        let a = if i < alignments.len() {
            alignments[i]
        } else {
            ColumnAlignment::Default
        };
        push_alignment_marker(out, a);
        assert(out@ =~= marks + alignment_markers(alignments@, i + 1));
        i += 1;
    }
    out.push('\n');
    let ghost body = out@;
    let mut r: usize = 0;
    while r < rows.len()
        invariant
            r <= rows.len(),
            out@ == body + md_rows(rows@.subrange(0, r as int)),
        decreases rows.len() - r,
    {
        push_str(out, "|");
        emit_cells(out, &rows[r]);
        out.push('\n');
        proof {
            assert(rows@.subrange(0, r + 1).drop_last() =~= rows@.subrange(0, r as int));
            assert(out@ =~= body + md_rows(rows@.subrange(0, r + 1)));
        }
        r += 1;
    }
    assert(rows@.subrange(0, rows@.len() as int) =~= rows@);
    assert(out@ =~= start + md_table(headers@, alignments@, rows@));
}

/// What a slot of a grid row shows: the cell's inline text, or nothing.
pub open spec fn slot_text(cells: Seq<TableCell>, slot: GridSlot) -> Seq<char> {
    match slot {
        GridSlot::Cell(idx) => if idx < cells.len() {
            md_inlines(cells[idx as int].content@)
        } else {
            seq![]
        },
        _ => seq![],
    }
}

/// The slots of a grid row after its opening pipe: each ` text |`.
pub open spec fn grid_row_cells(cells: Seq<TableCell>, slots: Seq<GridSlot>) -> Seq<char>
    decreases slots.len(),
{
    if slots.len() == 0 {
        seq![]
    } else {
        grid_row_cells(cells, slots.drop_last()) + " "@ + slot_text(cells, slots.last()) + " |"@
    }
}

fn emit_grid_row(out: &mut Vec<char>, cells: &Vec<TableCell>, slots: &Vec<GridSlot>)
    ensures
        final(out)@ == old(out)@ + "|"@ + grid_row_cells(cells@, slots@) + seq!['\n'],
{
    push_str(out, "|");
    let ghost head = out@;
    let mut k: usize = 0;
    while k < slots.len()
        invariant
            k <= slots.len(),
            out@ == head + grid_row_cells(cells@, slots@.subrange(0, k as int)),
            head == old(out)@ + "|"@,
        decreases slots.len() - k,
    {
        assert(slots@.subrange(0, k + 1).drop_last() =~= slots@.subrange(0, k as int));
        let ghost before = out@;
        push_str(out, " ");
        match slots[k] {
            GridSlot::Cell(idx) => {
                if idx < cells.len() {
                    emit_inlines_to(out, &cells[idx].content);
                }
            },
            _ => {},
        }
        push_str(out, " |");
        assert(out@ =~= before + " "@ + slot_text(cells@, slots@[k as int]) + " |"@);
        k += 1;
    }
    assert(slots@.subrange(0, k as int) =~= slots@);
    out.push('\n');
}

/// The data rows from `r` on of a table with spanning cells, each laid out on
/// `n` columns over the grid `g` that the rows above marked.
pub open spec fn md_span_rows(rows: Seq<Vec<TableCell>>, r: int, g: Seq<Seq<bool>>, n: int) -> Seq<char>
    decreases rows.len() - r,
{
    if r < 0 || r >= rows.len() {
        seq![]
    } else {
        let e = expand_spec(rows[r]@, r + 1, g, n);
        "|"@ + grid_row_cells(rows[r]@, e.0) + seq!['\n'] + md_span_rows(rows, r + 1, e.1, n)
    }
}

/// A table with spanning cells: every row laid out on `n` columns, a column
/// that a row span from above reaches and the columns that a column span
/// reaches written as empty cells.
pub open spec fn md_span_table(
    headers: Seq<TableCell>,
    alignments: Seq<ColumnAlignment>,
    rows: Seq<Vec<TableCell>>,
    n: int,
) -> Seq<char> {
    let total: nat = if rows.len() < usize::MAX { rows.len() + 1 } else { rows.len() };
    let h = expand_spec(headers, 0, empty_grid(total as nat, n as nat), n);
    "|"@ + grid_row_cells(headers, h.0) + seq!['\n'] + "|"@ + alignment_markers(alignments, n) + seq!['\n']
        + md_span_rows(rows, 0, h.1, n)
}

fn emit_table_with_spans(
    out: &mut Vec<char>,
    headers: &Vec<TableCell>,
    alignments: &Vec<ColumnAlignment>,
    rows: &Vec<Vec<TableCell>>,
    num_cols: usize,
)
    ensures
        final(out)@ == old(out)@ + md_span_table(headers@, alignments@, rows@, num_cols as int),
{
    let ghost start = out@;
    let total_rows = if rows.len() < usize::MAX {
        rows.len() + 1
    } else {
        rows.len()
    };
    let mut occupied = bool_grid(total_rows, num_cols);
    let header_slots = expand_row(headers, 0, &mut occupied, num_cols);
    emit_grid_row(out, headers, &header_slots);
    push_str(out, "|");
    let ghost marks = out@;
    let mut i: usize = 0;
    while i < num_cols
        invariant
            i <= num_cols,
            out@ == marks + alignment_markers(alignments@, i as int),
        decreases num_cols - i,
    {
        let a = if i < alignments.len() {
            alignments[i]
        } else {
            ColumnAlignment::Default
        };
        push_alignment_marker(out, a);
        assert(out@ =~= marks + alignment_markers(alignments@, i + 1));
        i += 1;
    }
    out.push('\n');
    let ghost target = start + md_span_table(headers@, alignments@, rows@, num_cols as int);
    assert(out@ + md_span_rows(rows@, 0, grid_view(occupied@), num_cols as int) =~= target);
    let mut r: usize = 0;
    while r < rows.len()
        invariant
            r <= rows.len(),
            out@ + md_span_rows(rows@, r as int, grid_view(occupied@), num_cols as int) == target,
        decreases rows.len() - r,
    {
        let ghost before = out@;
        let ghost g = grid_view(occupied@);
        let slots = expand_row(&rows[r], r + 1, &mut occupied, num_cols);
        emit_grid_row(out, &rows[r], &slots);
        assert(out@ + md_span_rows(rows@, r + 1, grid_view(occupied@), num_cols as int) =~= before + md_span_rows(
            rows@,
            r as int,
            g,
            num_cols as int,
        ));
        r += 1;
    }
    assert(out@ =~= target);
}

fn emit_inlines(ctx: &mut MdCtx, inlines: &Vec<Inline>)
    ensures
        final(ctx).indent@ == old(ctx).indent@,
        final(ctx).out@ == old(ctx).out@ + md_inlines(inlines@),
{
    emit_inlines_to(&mut ctx.out, inlines);
}

fn emit_inlines_to(out: &mut Vec<char>, inlines: &Vec<Inline>)
    ensures
        final(out)@ == old(out)@ + md_inlines(inlines@),
    decreases inlines, 1nat,
{
    let ghost start = out@;
    let mut i: usize = 0;
    while i < inlines.len()
        invariant
            i <= inlines.len(),
            out@ == start + md_inlines(inlines@.subrange(0, i as int)),
        decreases inlines.len() - i,
    {
        assert(decreases_to!(inlines => inlines@[i as int]));
        emit_inline(out, &inlines[i]);
        proof {
            assert(inlines@.subrange(0, i + 1).drop_last() =~= inlines@.subrange(0, i as int));
            assert(out@ =~= start + md_inlines(inlines@.subrange(0, i + 1)));
        }
        i += 1;
    }
    assert(inlines@.subrange(0, inlines@.len() as int) =~= inlines@);
}

fn push_title(out: &mut Vec<char>, title: &Option<String>)
    ensures
        final(out)@ == old(out)@ + md_title(*title),
{
    let ghost start = out@;
    if let Some(t) = title {
        push_str(out, " \"");
        push_string(out, t);
        push_str(out, "\"");
    }
    assert(out@ =~= start + md_title(*title));
}

fn emit_wrapped(out: &mut Vec<char>, delim: &str, content: &Vec<Inline>)
    ensures
        final(out)@ == old(out)@ + delim@ + md_inlines(content@) + delim@,
    decreases content, 2nat,
{
    push_str(out, delim);
    emit_inlines_to(out, content);
    push_str(out, delim);
}

fn emit_inline(out: &mut Vec<char>, inline: &Inline)
    ensures
        final(out)@ == old(out)@ + md_inline(*inline),
    decreases inline, 0nat,
{
    let ghost start = out@;
    match inline {
        Inline::Text(t) => push_string(out, t),
        Inline::Bold(c) => emit_wrapped(out, "**", c),
        Inline::Italic(c) => emit_wrapped(out, "*", c),
        Inline::BoldItalic(c) => emit_wrapped(out, "***", c),
        Inline::Strikethrough(c) => emit_wrapped(out, "~~", c),
        Inline::Superscript(c) => emit_wrapped(out, "^", c),
        Inline::Subscript(c) => emit_wrapped(out, "~", c),
        Inline::InlineCode(code) => {
            let v = chars_of_string(code);
            if contains_char(&v, '`') {
                push_str(out, "`` ");
                push_all(out, &v);
                push_str(out, " ``");
            } else {
                push_str(out, "`");
                push_all(out, &v);
                push_str(out, "`");
            }
        },
        Inline::Link { url, text, title } => {
            push_str(out, "[");
            emit_inlines_to(out, text);
            push_str(out, "](");
            push_string(out, url);
            push_title(out, title);
            push_str(out, ")");
        },
        Inline::Image { url, alt, title, link } => {
            if let Some(link_url) = link {
                push_str(out, "[![");
                emit_inlines_to(out, alt);
                push_str(out, "](");
                push_string(out, url);
                push_title(out, title);
                push_str(out, ")](");
                push_string(out, link_url);
                push_str(out, ")");
            } else {
                push_str(out, "![");
                emit_inlines_to(out, alt);
                push_str(out, "](");
                push_string(out, url);
                push_title(out, title);
                push_str(out, ")");
            }
        },
        Inline::HardLineBreak => push_str(out, "  \n"),
        Inline::SoftLineBreak => out.push('\n'),
        Inline::RawInline { content, .. } => push_string(out, content),
    }
    assert(out@ =~= start + md_inline(*inline));
}

} // verus!
