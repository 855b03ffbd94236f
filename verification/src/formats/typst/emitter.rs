//! Typst writer.
use vstd::prelude::*;

use crate::ast::{Block, DescriptionItem, Document, Inline, ListItem, TableCell};
use crate::error::EmitError;
use crate::format::Emitter;
use crate::formats::common::{ends_with_single_newline, ensure_blank_line, finish_output, finished, with_blank_line};
use crate::text::{chars_of_string, decimal, eq, lines, lines_spec, push_all, push_decimal, push_str, push_string, repeat, repeat_spec, views};

verus! {

pub struct TypstEmitter;

impl Emitter for TypstEmitter {
    fn emit(&self, doc: &Document) -> (r: Result<String, EmitError>)
        ensures
            r matches Ok(s) && s@ == finished(typst_blocks(seq![], doc.children@)),
            r matches Ok(s) && ends_with_single_newline(s@),
    {
        Ok(emit_typst(&doc.children))
    }
}

// ---------------------------------------------------------------------------
// The text written
// ---------------------------------------------------------------------------

/// Lines, each indented by two spaces and ended by a newline.
pub open spec fn indented(ls: Seq<Seq<char>>) -> Seq<char>
    decreases ls.len(),
{
    if ls.len() == 0 {
        seq![]
    } else {
        indented(ls.drop_last()) + "  "@ + ls.last() + seq!['\n']
    }
}

/// How an inline node is written.
pub open spec fn typst_inline(x: Inline) -> Seq<char>
    decreases x, 0nat,
{
    match x {
        Inline::Text(t) => t@,
        Inline::Bold(c) => "*"@ + typst_inlines(c@) + "*"@,
        Inline::Italic(c) => "_"@ + typst_inlines(c@) + "_"@,
        Inline::BoldItalic(c) => "*_"@ + typst_inlines(c@) + "_*"@,
        Inline::Strikethrough(c) => "#strike["@ + typst_inlines(c@) + "]"@,
        Inline::Superscript(c) => "#super["@ + typst_inlines(c@) + "]"@,
        Inline::Subscript(c) => "#sub["@ + typst_inlines(c@) + "]"@,
        Inline::InlineCode(code) => "`"@ + code@ + "`"@,
        Inline::Link { url, text, .. } => "#link(\""@ + url@ + if typst_inlines(text@) == url@ {
            "\")"@
        } else {
            "\")["@ + typst_inlines(text@) + "]"@
        },
        Inline::Image { url, .. } => "#image(\""@ + url@ + "\")"@,
        Inline::HardLineBreak => " \\\n"@,
        Inline::SoftLineBreak => seq!['\n'],
        Inline::RawInline { content, .. } => content@,
    }
}

pub open spec fn typst_inlines(s: Seq<Inline>) -> Seq<char>
    decreases s, 1nat,
{
    if s.len() == 0 {
        seq![]
    } else {
        typst_inlines(s.drop_last()) + typst_inline(s.last())
    }
}

/// How a table cell is written: `table.cell(..)` with its spans where it
/// has any.
pub open spec fn typst_cell(cell: TableCell) -> Seq<char> {
    (if cell.spans() {
        "  table.cell("@ + (if cell.colspan > 1 {
            "colspan: "@ + decimal(cell.colspan as nat)
        } else {
            seq![]
        }) + (if cell.rowspan > 1 {
            (if cell.colspan > 1 {
                ", "@
            } else {
                seq![]
            }) + "rowspan: "@ + decimal(cell.rowspan as nat)
        } else {
            seq![]
        }) + ")["@
    } else {
        "  ["@
    }) + typst_inlines(cell.content@) + "],\n"@
}

pub open spec fn typst_cells(cells: Seq<TableCell>) -> Seq<char>
    decreases cells.len(),
{
    if cells.len() == 0 {
        seq![]
    } else {
        typst_cells(cells.drop_last()) + typst_cell(cells.last())
    }
}

pub open spec fn typst_rows(rows: Seq<Vec<TableCell>>) -> Seq<char>
    decreases rows.len(),
{
    if rows.len() == 0 {
        seq![]
    } else {
        typst_rows(rows.drop_last()) + typst_cells(rows.last()@)
    }
}

/// The inline text of the paragraphs of one definition.
pub open spec fn definition_text(blocks: Seq<Block>) -> Seq<char>
    decreases blocks.len(),
{
    if blocks.len() == 0 {
        seq![]
    } else {
        definition_text(blocks.drop_last()) + match blocks.last() {
            Block::Paragraph { content } => typst_inlines(content@),
            _ => seq![],
        }
    }
}

pub open spec fn definitions_text(defs: Seq<Vec<Block>>) -> Seq<char>
    decreases defs.len(),
{
    if defs.len() == 0 {
        seq![]
    } else {
        definitions_text(defs.drop_last()) + definition_text(defs.last()@)
    }
}

pub open spec fn terms_text(items: Seq<DescriptionItem>) -> Seq<char>
    decreases items.len(),
{
    if items.len() == 0 {
        seq![]
    } else {
        terms_text(items.drop_last()) + "/ "@ + typst_inlines(items.last().term@) + ": "@
            + definitions_text(items.last().definitions@) + seq!['\n']
    }
}

/// Blocks written after `prev`: each block but the first follows a blank
/// line; empty paragraphs are left out.
pub open spec fn typst_blocks(prev: Seq<char>, s: Seq<Block>) -> Seq<char>
    decreases s, 3nat,
{
    if s.len() == 0 {
        prev
    } else {
        typst_block(typst_blocks(prev, s.drop_last()), s.last(), s.len() > 1)
    }
}

/// One block written after `prev`; `later` when blocks came before it.
pub open spec fn typst_block(prev: Seq<char>, b: Block, later: bool) -> Seq<char>
    decreases b, 2nat,
{
    if b matches Block::Paragraph { content } && content@.len() == 0 {
        prev
    } else {
        (if later {
            with_blank_line(prev)
        } else {
            prev
        }) + typst_body(b)
    }
}

/// The text of a block.
pub open spec fn typst_body(b: Block) -> Seq<char>
    decreases b, 1nat,
{
    match b {
        Block::Heading { level, content } => repeat_spec('=', level as nat) + " "@ + typst_inlines(
            content@,
        ) + seq!['\n'],
        Block::Paragraph { content } => typst_inlines(content@) + seq!['\n'],
        Block::CodeBlock { language, content } => "```"@ + (match language {
            Some(l) => l@,
            None => seq![],
        }) + seq!['\n'] + content@ + seq!['\n'] + "```\n"@,
        Block::BlockQuote { children } => "#quote[\n"@ + indented(
            lines_spec(finished(typst_blocks(seq![], children@))),
        ) + "]\n"@,
        Block::UnorderedList { items } => typst_list(items@, false),
        Block::OrderedList { items, .. } => typst_list(items@, true),
        Block::DescriptionList { items } => terms_text(items@),
        Block::Table { headers, rows, .. } => "#table(\n  columns: "@ + decimal(headers@.len()) + ",\n"@
            + typst_cells(headers@) + typst_rows(rows@) + ")\n"@,
        Block::HorizontalRule => "#line(length: 100%)\n"@,
        Block::RawBlock { content, .. } => content@ + seq!['\n'],
    }
}

/// A list: `+ ` items when `ordered`, else `- ` items.
pub open spec fn typst_list(items: Seq<ListItem>, ordered: bool) -> Seq<char>
    decreases items, 1nat,
{
    if items.len() == 0 {
        seq![]
    } else {
        typst_list(items.drop_last(), ordered) + typst_item(items.last().content@, ordered)
    }
}

/// A list item's blocks: the first paragraph after the item marker, nested
/// lists indented, other blocks as they are.
pub open spec fn typst_item(blocks: Seq<Block>, ordered: bool) -> Seq<char>
    decreases blocks, 0nat,
{
    if blocks.len() == 0 {
        seq![]
    } else {
        typst_item(blocks.drop_last(), ordered) + typst_item_block(
            blocks.last(),
            blocks.len() == 1,
            ordered,
        )
    }
}

pub open spec fn typst_item_block(b: Block, first: bool, ordered: bool) -> Seq<char>
    decreases b, 3nat,
{
    match b {
        Block::Paragraph { content } => if content@.len() > 0 && first {
            (if ordered {
                "+ "@
            } else {
                "- "@
            }) + typst_inlines(content@) + seq!['\n']
        } else {
            seq![]
        },
        Block::UnorderedList { items } => indented(lines_spec(typst_list(items@, false))),
        Block::OrderedList { items, .. } => indented(lines_spec(typst_list(items@, true))),
        _ => typst_body(b),
    }
}

// ---------------------------------------------------------------------------
// Writing
// ---------------------------------------------------------------------------

/// Writes blocks as Typst; the text ends with exactly one newline.
pub fn emit_typst(blocks: &Vec<Block>) -> (s: String)
    ensures
        s@ == finished(typst_blocks(seq![], blocks@)),
        ends_with_single_newline(s@),
{
    let mut out: Vec<char> = Vec::new();
    emit_blocks(&mut out, blocks);
    finish_output(&out)
}

/// Appends each line of `text` to `out`, indented by two spaces.
fn push_indented_lines(out: &mut Vec<char>, text: &Vec<char>)
    ensures
        final(out)@ == old(out)@ + indented(lines_spec(text@)),
{
    let ghost start = out@;
    let ls = lines(text);
    let ghost views_ls = views(ls@);
    let mut k: usize = 0;
    while k < ls.len()
        invariant
            k <= ls.len(),
            views_ls == views(ls@),
            views_ls.len() == ls@.len(),
            out@ == start + indented(views_ls.subrange(0, k as int)),
        decreases ls.len() - k,
    {
        push_str(out, "  ");
        push_all(out, &ls[k]);
        out.push('\n');
        proof {
            assert(views_ls.subrange(0, k + 1).drop_last() =~= views_ls.subrange(0, k as int));
            assert(views_ls[k as int] == ls@[k as int]@);
            assert(out@ =~= start + indented(views_ls.subrange(0, k + 1)));
        }
        k += 1;
    }
    assert(views_ls.subrange(0, views_ls.len() as int) =~= views_ls);
}

fn emit_blocks(out: &mut Vec<char>, blocks: &Vec<Block>)
    ensures
        final(out)@ == typst_blocks(old(out)@, blocks@),
    decreases blocks, 3nat,
{
    let ghost start = out@;
    let mut i: usize = 0;
    assert(blocks@.subrange(0, 0) =~= seq![]);
    while i < blocks.len()
        invariant
            i <= blocks.len(),
            out@ == typst_blocks(start, blocks@.subrange(0, i as int)),
        decreases blocks.len() - i,
    {
        assert(decreases_to!(blocks => blocks@[i as int]));
        emit_block(out, &blocks[i], i > 0);
        proof {
            assert(blocks@.subrange(0, i + 1).drop_last() =~= blocks@.subrange(0, i as int));
        }
        i += 1;
    }
    assert(blocks@.subrange(0, blocks@.len() as int) =~= blocks@);
}

/// Writes one block; `later` when blocks came before it in the same sequence.
fn emit_block(out: &mut Vec<char>, block: &Block, later: bool)
    ensures
        final(out)@ == typst_block(old(out)@, *block, later),
    decreases block, 2nat,
{
    if let Block::Paragraph { content } = block {
        if content.len() == 0 {
            return;
        }
    }
    if later {
        ensure_blank_line(out);
    }
    emit_body(out, block);
}

fn emit_body(out: &mut Vec<char>, block: &Block)
    ensures
        final(out)@ == old(out)@ + typst_body(*block),
    decreases block, 1nat,
{
    let ghost start = out@;
    match block {
        Block::Heading { level, content } => {
            push_all(out, &repeat('=', *level as usize));
            push_str(out, " ");
            emit_inlines(out, content);
            out.push('\n');
        },
        Block::Paragraph { content } => {
            emit_inlines(out, content);
            out.push('\n');
        },
        Block::CodeBlock { language, content } => {
            push_str(out, "```");
            if let Some(lang) = language {
                push_string(out, lang);
            }
            out.push('\n');
            push_string(out, content);
            out.push('\n');
            push_str(out, "```\n");
        },
        Block::BlockQuote { children } => {
            push_str(out, "#quote[\n");
            let mut inner: Vec<char> = Vec::new();
            emit_blocks(&mut inner, children);
            let inner = chars_of_string(&finish_output(&inner));
            push_indented_lines(out, &inner);
            push_str(out, "]\n");
        },
        Block::UnorderedList { items } => {
            emit_list(out, items, false);
        },
        Block::OrderedList { items, .. } => {
            emit_list(out, items, true);
        },
        Block::DescriptionList { items } => {
            emit_terms(out, items);
        },
        Block::Table { headers, rows, .. } => {
            emit_table(out, headers, rows);
        },
        Block::HorizontalRule => {
            push_str(out, "#line(length: 100%)\n");
        },
        Block::RawBlock { content, .. } => {
            push_string(out, content);
            out.push('\n');
        },
    }
    assert(out@ =~= start + typst_body(*block));
}

fn emit_terms(out: &mut Vec<char>, items: &Vec<DescriptionItem>)
    ensures
        final(out)@ == old(out)@ + terms_text(items@),
{
    let ghost start = out@;
    let mut k: usize = 0;
    while k < items.len()
        invariant
            k <= items.len(),
            out@ == start + terms_text(items@.subrange(0, k as int)),
        decreases items.len() - k,
    {
        let item = &items[k];
        push_str(out, "/ ");
        emit_inlines(out, &item.term);
        push_str(out, ": ");
        let ghost defs_start = out@;
        let mut d: usize = 0;
        while d < item.definitions.len()
            invariant
                d <= item.definitions.len(),
                out@ == defs_start + definitions_text(item.definitions@.subrange(0, d as int)),
            decreases item.definitions.len() - d,
        {
            let defs = &item.definitions[d];
            let ghost def_start = out@;
            let mut e: usize = 0;
            while e < defs.len()
                invariant
                    e <= defs.len(),
                    out@ == def_start + definition_text(defs@.subrange(0, e as int)),
                decreases defs.len() - e,
            {
                if let Block::Paragraph { content } = &defs[e] {
                    emit_inlines(out, content);
                }
                proof {
                    assert(defs@.subrange(0, e + 1).drop_last() =~= defs@.subrange(0, e as int));
                    assert(out@ =~= def_start + definition_text(defs@.subrange(0, e + 1)));
                }
                e += 1;
            }
            proof {
                assert(defs@.subrange(0, defs@.len() as int) =~= defs@);
                assert(item.definitions@.subrange(0, d + 1).drop_last() =~= item.definitions@.subrange(0, d as int));
                assert(out@ =~= defs_start + definitions_text(item.definitions@.subrange(0, d + 1)));
            }
            d += 1;
        }
        out.push('\n');
        proof {
            assert(item.definitions@.subrange(0, item.definitions@.len() as int) =~= item.definitions@);
            assert(items@.subrange(0, k + 1).drop_last() =~= items@.subrange(0, k as int));
            assert(out@ =~= start + terms_text(items@.subrange(0, k + 1)));
        }
        k += 1;
    }
    assert(items@.subrange(0, items@.len() as int) =~= items@);
}

/// Writes a list: `+ ` items when `ordered`, else `- ` items; nested lists are
/// indented by two spaces.
fn emit_list(out: &mut Vec<char>, items: &Vec<ListItem>, ordered: bool)
    ensures
        final(out)@ == old(out)@ + typst_list(items@, ordered),
    decreases items, 1nat,
{
    let ghost start = out@;
    let mut i: usize = 0;
    while i < items.len()
        invariant
            i <= items.len(),
            out@ == start + typst_list(items@.subrange(0, i as int), ordered),
        decreases items.len() - i,
    {
        assert(decreases_to!(items => items@[i as int]));
        emit_item(out, &items[i], ordered);
        proof {
            assert(items@.subrange(0, i + 1).drop_last() =~= items@.subrange(0, i as int));
            assert(out@ =~= start + typst_list(items@.subrange(0, i + 1), ordered));
        }
        i += 1;
    }
    assert(items@.subrange(0, items@.len() as int) =~= items@);
}

fn emit_item(out: &mut Vec<char>, item: &ListItem, ordered: bool)
    ensures
        final(out)@ == old(out)@ + typst_item(item.content@, ordered),
    decreases item, 0nat,
{
    let ghost start = out@;
    let mut j: usize = 0;
    while j < item.content.len()
        invariant
            j <= item.content.len(),
            out@ == start + typst_item(item.content@.subrange(0, j as int), ordered),
        decreases item.content.len() - j,
    {
        let block = &item.content[j];
        assert(decreases_to!(item => item.content));
        assert(decreases_to!(item.content => item.content@[j as int]));
        emit_item_block(out, block, j == 0, ordered);
        proof {
            assert(item.content@.subrange(0, j + 1).drop_last() =~= item.content@.subrange(0, j as int));
            assert(out@ =~= start + typst_item(item.content@.subrange(0, j + 1), ordered));
        }
        j += 1;
    }
    assert(item.content@.subrange(0, item.content@.len() as int) =~= item.content@);
}

fn emit_item_block(out: &mut Vec<char>, block: &Block, first: bool, ordered: bool)
    ensures
        final(out)@ == old(out)@ + typst_item_block(*block, first, ordered),
    decreases block, 3nat,
{
    let ghost start = out@;
    match block {
        Block::Paragraph { content } => {
            if content.len() > 0 && first {
                if ordered {
                    push_str(out, "+ ");
                } else {
                    push_str(out, "- ");
                }
                emit_inlines(out, content);
                out.push('\n');
            }
        },
        Block::UnorderedList { items } => {
            let mut inner: Vec<char> = Vec::new();
            emit_list(&mut inner, items, false);
            assert(inner@ =~= typst_list(items@, false));
            push_indented_lines(out, &inner);
        },
        Block::OrderedList { items, .. } => {
            let mut inner: Vec<char> = Vec::new();
            emit_list(&mut inner, items, true);
            assert(inner@ =~= typst_list(items@, true));
            push_indented_lines(out, &inner);
        },
        _ => emit_body(out, block),
    }
    assert(out@ =~= start + typst_item_block(*block, first, ordered));
}

fn emit_table(out: &mut Vec<char>, headers: &Vec<TableCell>, rows: &Vec<Vec<TableCell>>)
    ensures
        final(out)@ == old(out)@ + "#table(\n  columns: "@ + decimal(headers@.len()) + ",\n"@ + typst_cells(
            headers@,
        ) + typst_rows(rows@) + ")\n"@,
{
    push_str(out, "#table(\n  columns: ");
    push_decimal(out, headers.len() as u64);
    push_str(out, ",\n");
    emit_cells(out, headers);
    let ghost body = out@;
    let mut r: usize = 0;
    while r < rows.len()
        invariant
            r <= rows.len(),
            out@ == body + typst_rows(rows@.subrange(0, r as int)),
        decreases rows.len() - r,
    {
        emit_cells(out, &rows[r]);
        proof {
            assert(rows@.subrange(0, r + 1).drop_last() =~= rows@.subrange(0, r as int));
            assert(out@ =~= body + typst_rows(rows@.subrange(0, r + 1)));
        }
        r += 1;
    }
    assert(rows@.subrange(0, rows@.len() as int) =~= rows@);
    push_str(out, ")\n");
}

fn emit_cells(out: &mut Vec<char>, cells: &Vec<TableCell>)
    ensures
        final(out)@ == old(out)@ + typst_cells(cells@),
{
    let ghost start = out@;
    let mut c: usize = 0;
    while c < cells.len()
        invariant
            c <= cells.len(),
            out@ == start + typst_cells(cells@.subrange(0, c as int)),
        decreases cells.len() - c,
    {
        emit_cell(out, &cells[c]);
        proof {
            assert(cells@.subrange(0, c + 1).drop_last() =~= cells@.subrange(0, c as int));
            assert(out@ =~= start + typst_cells(cells@.subrange(0, c + 1)));
        }
        c += 1;
    }
    assert(cells@.subrange(0, cells@.len() as int) =~= cells@);
}

fn emit_cell(out: &mut Vec<char>, cell: &TableCell)
    ensures
        final(out)@ == old(out)@ + typst_cell(*cell),
{
    let ghost start = out@;
    if cell.has_span() {
        push_str(out, "  table.cell(");
        let ghost a = out@;
        if cell.colspan > 1 {
            push_str(out, "colspan: ");
            push_decimal(out, cell.colspan as u64);
        }
        let ghost b = out@;
        assert(b =~= a + (if cell.colspan > 1 {
            "colspan: "@ + decimal(cell.colspan as nat)
        } else {
            seq![]
        }));
        if cell.rowspan > 1 {
            if cell.colspan > 1 {
                push_str(out, ", ");
            }
            push_str(out, "rowspan: ");
            push_decimal(out, cell.rowspan as u64);
        }
        assert(out@ =~= b + (if cell.rowspan > 1 {
            (if cell.colspan > 1 {
                ", "@
            } else {
                seq![]
            }) + "rowspan: "@ + decimal(cell.rowspan as nat)
        } else {
            seq![]
        }));
        push_str(out, ")[");
    } else {
        push_str(out, "  [");
    }
    let ghost opened = out@;
    emit_inlines(out, &cell.content);
    push_str(out, "],\n");
    assert(out@ =~= start + typst_cell(*cell));
}

fn emit_inlines(out: &mut Vec<char>, inlines: &Vec<Inline>)
    ensures
        final(out)@ == old(out)@ + typst_inlines(inlines@),
    decreases inlines, 1nat,
{
    let ghost start = out@;
    let mut i: usize = 0;
    while i < inlines.len()
        invariant
            i <= inlines.len(),
            out@ == start + typst_inlines(inlines@.subrange(0, i as int)),
        decreases inlines.len() - i,
    {
        assert(decreases_to!(inlines => inlines@[i as int]));
        emit_inline(out, &inlines[i]);
        proof {
            assert(inlines@.subrange(0, i + 1).drop_last() =~= inlines@.subrange(0, i as int));
            assert(out@ =~= start + typst_inlines(inlines@.subrange(0, i + 1)));
        }
        i += 1;
    }
    assert(inlines@.subrange(0, inlines@.len() as int) =~= inlines@);
}

fn emit_wrapped(out: &mut Vec<char>, open: &str, content: &Vec<Inline>, close: &str)
    ensures
        final(out)@ == old(out)@ + open@ + typst_inlines(content@) + close@,
    decreases content, 2nat,
{
    push_str(out, open);
    emit_inlines(out, content);
    push_str(out, close);
}

fn emit_inline(out: &mut Vec<char>, inline: &Inline)
    ensures
        final(out)@ == old(out)@ + typst_inline(*inline),
    decreases inline, 0nat,
{
    let ghost start = out@;
    match inline {
        Inline::Text(t) => push_string(out, t),
        Inline::Bold(c) => emit_wrapped(out, "*", c, "*"),
        Inline::Italic(c) => emit_wrapped(out, "_", c, "_"),
        Inline::BoldItalic(c) => emit_wrapped(out, "*_", c, "_*"),
        Inline::Strikethrough(c) => emit_wrapped(out, "#strike[", c, "]"),
        Inline::Superscript(c) => emit_wrapped(out, "#super[", c, "]"),
        Inline::Subscript(c) => emit_wrapped(out, "#sub[", c, "]"),
        Inline::InlineCode(code) => {
            push_str(out, "`");
            push_string(out, code);
            push_str(out, "`");
        },
        Inline::Link { url, text, .. } => {
            let mut shown: Vec<char> = Vec::new();
            emit_inlines(&mut shown, text);
            assert(shown@ =~= typst_inlines(text@));
            push_str(out, "#link(\"");
            push_string(out, url);
            if eq(&shown, &chars_of_string(url)) {
                push_str(out, "\")");
            } else {
                push_str(out, "\")[");
                emit_inlines(out, text);
                push_str(out, "]");
            }
        },
        Inline::Image { url, .. } => {
            push_str(out, "#image(\"");
            push_string(out, url);
            push_str(out, "\")");
        },
        Inline::HardLineBreak => push_str(out, " \\\n"),
        Inline::SoftLineBreak => out.push('\n'),
        Inline::RawInline { content, .. } => push_string(out, content),
    }
    assert(out@ =~= start + typst_inline(*inline));
}

} // verus!
