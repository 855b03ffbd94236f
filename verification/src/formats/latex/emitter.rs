//! LaTeX writer.
use vstd::prelude::*;

use crate::ast::{Block, ColumnAlignment, DescriptionItem, Document, Inline, ListItem, TableCell};
use crate::error::EmitError;
use crate::format::Emitter;
use crate::formats::common::{ends_with_single_newline, ensure_blank_line, finish_output, finished, with_blank_line};
use crate::text::{chars_of_string, copy, decimal, join_spec, lemma_join_push, lines, lines_spec, push_all, push_decimal, push_str, push_string, repeat, repeat_spec, trim_end_char, trim_end_char_spec, views};

verus! {

pub struct LatexEmitter;

impl Emitter for LatexEmitter {
    fn emit(&self, doc: &Document) -> (r: Result<String, EmitError>)
        ensures
            r matches Ok(s) && s@ == finished(latex_blocks(seq![], doc.children@)),
            r matches Ok(s) && ends_with_single_newline(s@),
    {
        Ok(emit_latex(&doc.children))
    }
}

/// Writes blocks as LaTeX; the text ends with exactly one newline.
pub fn emit_latex(blocks: &Vec<Block>) -> (s: String)
    ensures
        s@ == finished(latex_blocks(seq![], blocks@)),
        ends_with_single_newline(s@),
{
    let mut out: Vec<char> = Vec::new();
    emit_blocks(&mut out, blocks);
    finish_output(&out)
}

/// How one character of text is written in LaTeX; `in_url` for the target of
/// a link or image, where `^` and `~` stay as they are.
pub open spec fn escape_char_spec(c: char, in_url: bool) -> Seq<char> {
    if c == '\\' {
        "\\textbackslash{}"@
    } else if c == '{' {
        "\\{"@
    } else if c == '}' {
        "\\}"@
    } else if c == '#' {
        "\\#"@
    } else if c == '$' {
        "\\$"@
    } else if c == '%' {
        "\\%"@
    } else if c == '&' {
        "\\&"@
    } else if c == '_' {
        "\\_"@
    } else if c == '^' && !in_url {
        "\\textasciicircum{}"@
    } else if c == '~' && !in_url {
        "\\textasciitilde{}"@
    } else {
        seq![c]
    }
}

/// A text with each character escaped.
pub open spec fn escape_spec(s: Seq<char>, in_url: bool) -> Seq<char>
    decreases s.len(),
{
    if s.len() == 0 {
        Seq::empty()
    } else {
        escape_spec(s.drop_last(), in_url) + escape_char_spec(s.last(), in_url)
    }
}

/// Text of plain characters is written as it is.
pub proof fn lemma_escape_plain(t: Seq<char>)
    requires
        forall|i: int| 0 <= i < t.len() ==> crate::formats::common::plain_char(#[trigger] t[i]),
    ensures
        escape_spec(t, false) == t,
    decreases t.len(),
{
    if t.len() > 0 {
        lemma_escape_plain(t.drop_last());
        assert(crate::formats::common::plain_char(t.last()));
        assert(escape_char_spec(t.last(), false) == seq![t.last()]);
        assert(t.drop_last().push(t.last()) =~= t);
    }
}

/// Escapes the characters that LaTeX treats specially.
pub(crate) fn escape_latex(text: &Vec<char>, in_url: bool) -> (v: Vec<char>)
    ensures
        v@ == escape_spec(text@, in_url),
{
    let mut v: Vec<char> = Vec::new();
    let mut i: usize = 0;
    while i < text.len()
        invariant
            i <= text.len(),
            v@ == escape_spec(text@.subrange(0, i as int), in_url),
        decreases text.len() - i,
    {
        let c = text[i];
        let ghost before = v@;
        proof {
            reveal_strlit("\\textbackslash{}");
            reveal_strlit("\\{");
            reveal_strlit("\\}");
            reveal_strlit("\\#");
            reveal_strlit("\\$");
            reveal_strlit("\\%");
            reveal_strlit("\\&");
            reveal_strlit("\\_");
            reveal_strlit("\\textasciicircum{}");
            reveal_strlit("\\textasciitilde{}");
        }
        if c == '\\' {
            push_str(&mut v, "\\textbackslash{}");
        } else if c == '{' {
            push_str(&mut v, "\\{");
        } else if c == '}' {
            push_str(&mut v, "\\}");
        } else if c == '#' {
            push_str(&mut v, "\\#");
        } else if c == '$' {
            push_str(&mut v, "\\$");
        } else if c == '%' {
            push_str(&mut v, "\\%");
        } else if c == '&' {
            push_str(&mut v, "\\&");
        } else if c == '_' {
            push_str(&mut v, "\\_");
        } else if c == '^' && !in_url {
            push_str(&mut v, "\\textasciicircum{}");
        } else if c == '~' && !in_url {
            push_str(&mut v, "\\textasciitilde{}");
        } else {
            v.push(c);
        }
        assert(v@ == before + escape_char_spec(c, in_url));
        assert(text@.subrange(0, i + 1).drop_last() =~= text@.subrange(0, i as int));
        i += 1;
    }
    assert(text@.subrange(0, text@.len() as int) =~= text@);
    v
}

// ---------------------------------------------------------------------------
// The text written
// ---------------------------------------------------------------------------

/// The sectioning command of a heading level.
pub open spec fn heading_command_spec(level: u8) -> Seq<char> {
    if level == 1 {
        "section"@
    } else if level == 2 {
        "subsection"@
    } else if level == 3 {
        "subsubsection"@
    } else if level == 4 {
        "paragraph"@
    } else {
        "subparagraph"@
    }
}

/// How an inline node is written.
pub open spec fn latex_inline(x: Inline) -> Seq<char>
    decreases x, 0nat,
{
    match x {
        Inline::Text(t) => escape_spec(t@, false),
        Inline::Bold(c) => "\\"@ + "textbf"@ + "{"@ + latex_inlines(c@) + "}"@,
        Inline::Italic(c) => "\\"@ + "textit"@ + "{"@ + latex_inlines(c@) + "}"@,
        Inline::BoldItalic(c) => "\\textbf{\\textit{"@ + latex_inlines(c@) + "}}"@,
        Inline::Strikethrough(c) => "\\"@ + "sout"@ + "{"@ + latex_inlines(c@) + "}"@,
        Inline::Superscript(c) => "\\"@ + "textsuperscript"@ + "{"@ + latex_inlines(c@) + "}"@,
        Inline::Subscript(c) => "\\"@ + "textsubscript"@ + "{"@ + latex_inlines(c@) + "}"@,
        Inline::InlineCode(code) => "\\texttt{"@ + escape_spec(code@, false) + "}"@,
        Inline::Link { url, text, .. } => "\\href{"@ + escape_spec(url@, true) + "}{"@ + latex_inlines(
            text@,
        ) + "}"@,
        Inline::Image { url, link, .. } => (match link {
            Some(l) => "\\href{"@ + escape_spec(l@, true) + "}{"@,
            None => seq![],
        }) + "\\includegraphics{"@ + escape_spec(url@, true) + "}"@ + (if link is Some {
            "}"@
        } else {
            seq![]
        }),
        Inline::HardLineBreak => "\\\\\n"@,
        Inline::SoftLineBreak => seq!['\n'],
        Inline::RawInline { content, .. } => content@,
    }
}

pub open spec fn latex_inlines(s: Seq<Inline>) -> Seq<char>
    decreases s, 1nat,
{
    if s.len() == 0 {
        seq![]
    } else {
        latex_inlines(s.drop_last()) + latex_inline(s.last())
    }
}

/// A sum held in a `usize`: it stops at `usize::MAX`.
pub open spec fn sat_sum(a: int, b: int) -> int {
    if a + b <= usize::MAX {
        a + b
    } else {
        usize::MAX as int
    }
}

/// The columns a row of cells covers (each cell its span).
pub open spec fn logical_columns_spec(cells: Seq<TableCell>) -> int
    decreases cells.len(),
{
    if cells.len() == 0 {
        0
    } else {
        sat_sum(logical_columns_spec(cells.drop_last()), cells.last().colspan as int)
    }
}

/// The widest of the header row and the body rows.
pub open spec fn table_columns(headers: Seq<TableCell>, rows: Seq<Vec<TableCell>>) -> int
    decreases rows.len(),
{
    if rows.len() == 0 {
        logical_columns_spec(headers)
    } else {
        let w = table_columns(headers, rows.drop_last());
        let n = logical_columns_spec(rows.last()@);
        if n > w {
            n
        } else {
            w
        }
    }
}

/// The column letters of the first `n` columns.
pub open spec fn column_letters(alignments: Seq<ColumnAlignment>, n: int) -> Seq<char>
    decreases n,
{
    if n <= 0 {
        seq![]
    } else {
        column_letters(alignments, n - 1) + seq![
            if n - 1 < alignments.len() {
                match alignments[n - 1] {
                    ColumnAlignment::Center => 'c',
                    ColumnAlignment::Right => 'r',
                    _ => 'l',
                }
            } else {
                'l'
            },
        ]
    }
}

/// How one table cell is written.
pub open spec fn latex_cell(cell: TableCell) -> Seq<char> {
    (if cell.rowspan > 1 {
        "\\multirow{"@ + decimal(cell.rowspan as nat) + "}{*}{"@
    } else {
        seq![]
    }) + (if cell.colspan > 1 {
        "\\multicolumn{"@ + decimal(cell.colspan as nat) + "}{l}{"@
    } else {
        seq![]
    }) + latex_inlines(cell.content@) + (if cell.colspan > 1 {
        "}"@
    } else {
        seq![]
    }) + (if cell.rowspan > 1 {
        "}"@
    } else {
        seq![]
    })
}

/// The cells of a row, separated by ` & `.
pub open spec fn latex_cells(cells: Seq<TableCell>) -> Seq<char>
    decreases cells.len(),
{
    if cells.len() == 0 {
        seq![]
    } else {
        latex_cells(cells.drop_last()) + (if cells.len() > 1 {
            " & "@
        } else {
            seq![]
        }) + latex_cell(cells.last())
    }
}

pub open spec fn latex_row(cells: Seq<TableCell>) -> Seq<char> {
    latex_cells(cells) + " \\\\\n"@
}

pub open spec fn latex_rows(rows: Seq<Vec<TableCell>>) -> Seq<char>
    decreases rows.len(),
{
    if rows.len() == 0 {
        seq![]
    } else {
        latex_rows(rows.drop_last()) + latex_row(rows.last()@)
    }
}

/// How a table is written.
pub open spec fn latex_table(
    headers: Seq<TableCell>,
    alignments: Seq<ColumnAlignment>,
    rows: Seq<Vec<TableCell>>,
) -> Seq<char> {
    let columns = table_columns(headers, rows);
    "\\begin{tabular}{"@ + (if columns == 0 {
        seq!['l']
    } else {
        seq![]
    }) + column_letters(alignments, columns) + "}\n"@ + latex_row(headers) + "\\hline\n"@ + latex_rows(
        rows,
    ) + "\\end{tabular}\n"@
}

/// The written paragraphs of one definition.
pub open spec fn definition_parts(blocks: Seq<Block>) -> Seq<Seq<char>>
    decreases blocks.len(),
{
    if blocks.len() == 0 {
        seq![]
    } else {
        definition_parts(blocks.drop_last()) + match blocks.last() {
            Block::Paragraph { content } => seq![latex_inlines(content@)],
            _ => seq![],
        }
    }
}

pub open spec fn definitions_parts(defs: Seq<Vec<Block>>) -> Seq<Seq<char>>
    decreases defs.len(),
{
    if defs.len() == 0 {
        seq![]
    } else {
        definitions_parts(defs.drop_last()) + definition_parts(defs.last()@)
    }
}

/// The entries of a description list indented by `prefix`: each term, then
/// the paragraphs of its definitions separated by spaces.
pub open spec fn description_entries(prefix: Seq<char>, items: Seq<DescriptionItem>) -> Seq<char>
    decreases items.len(),
{
    if items.len() == 0 {
        seq![]
    } else {
        description_entries(prefix, items.drop_last()) + prefix + "  \\item["@ + latex_inlines(
            items.last().term@,
        ) + "] "@ + join_spec(definitions_parts(items.last().definitions@), " "@) + seq!['\n']
    }
}

pub open spec fn latex_description(items: Seq<DescriptionItem>, indent: int) -> Seq<char> {
    let prefix = repeat_spec(' ', indent as nat);
    prefix + "\\begin{description}\n"@ + description_entries(prefix, items) + prefix
        + "\\end{description}\n"@
}

/// Lines, each after `prefix` and ended by a newline.
pub open spec fn prefixed(prefix: Seq<char>, ls: Seq<Seq<char>>) -> Seq<char>
    decreases ls.len(),
{
    if ls.len() == 0 {
        seq![]
    } else {
        prefixed(prefix, ls.drop_last()) + prefix + ls.last() + seq!['\n']
    }
}

/// Blocks written after `prev`: each block but the first follows a blank
/// line; empty paragraphs are left out.
pub open spec fn latex_blocks(prev: Seq<char>, s: Seq<Block>) -> Seq<char>
    decreases s, 3nat,
{
    if s.len() == 0 {
        prev
    } else {
        latex_block(latex_blocks(prev, s.drop_last()), s.last(), s.len() > 1)
    }
}

/// One block written after `prev`; `later` when blocks came before it.
pub open spec fn latex_block(prev: Seq<char>, b: Block, later: bool) -> Seq<char>
    decreases b, 2nat,
{
    if b matches Block::Paragraph { content } && content@.len() == 0 {
        prev
    } else {
        (if later {
            with_blank_line(prev)
        } else {
            prev
        }) + latex_body(b)
    }
}

/// The text of a block.
pub open spec fn latex_body(b: Block) -> Seq<char>
    decreases b, 1nat,
{
    match b {
        Block::Heading { level, content } => "\\"@ + heading_command_spec(level) + "{"@ + latex_inlines(
            content@,
        ) + "}\n"@,
        Block::Paragraph { content } => latex_inlines(content@) + seq!['\n'],
        Block::CodeBlock { language, content } => "\\begin{lstlisting}"@ + (match language {
            Some(l) => "[language="@ + l@ + "]"@,
            None => seq![],
        }) + seq!['\n'] + content@ + seq!['\n'] + "\\end{lstlisting}\n"@,
        Block::BlockQuote { children } => "\\begin{quote}\n"@ + trim_end_char_spec(
            finished(latex_blocks(seq![], children@)),
            '\n',
        ) + "\n\\end{quote}\n"@,
        Block::UnorderedList { items } => latex_list("itemize"@, items@, 0),
        Block::OrderedList { items, .. } => latex_list("enumerate"@, items@, 0),
        Block::DescriptionList { items } => latex_description(items@, 0),
        Block::Table { headers, alignments, rows } => latex_table(headers@, alignments@, rows@),
        Block::HorizontalRule => "\\hrule\n"@,
        Block::RawBlock { content, .. } => content@ + seq!['\n'],
    }
}

/// A list environment indented by `indent` spaces.
pub open spec fn latex_list(environment: Seq<char>, items: Seq<ListItem>, indent: int) -> Seq<char>
    decreases items, 2nat,
{
    let prefix = repeat_spec(' ', indent as nat);
    prefix + "\\begin{"@ + environment + "}\n"@ + latex_items(items, indent) + prefix + "\\end{"@
        + environment + "}\n"@
}

pub open spec fn latex_items(items: Seq<ListItem>, indent: int) -> Seq<char>
    decreases items, 1nat,
{
    if items.len() == 0 {
        seq![]
    } else {
        latex_items(items.drop_last(), indent) + latex_item(items.last().content@, indent)
    }
}

/// Whether some block of `s` is a paragraph.
pub open spec fn has_paragraph(s: Seq<Block>) -> bool {
    exists|j: int| 0 <= j < s.len() && s[j] is Paragraph
}

/// A list item's blocks: the first paragraph after `\item`, later ones
/// indented, nested lists one level deeper, other blocks indented line by
/// line.
pub open spec fn latex_item(blocks: Seq<Block>, indent: int) -> Seq<char>
    decreases blocks, 0nat,
{
    if blocks.len() == 0 {
        seq![]
    } else {
        latex_item(blocks.drop_last(), indent) + latex_item_block(
            blocks.last(),
            has_paragraph(blocks.drop_last()),
            indent,
        )
    }
}

pub open spec fn latex_item_block(b: Block, after_paragraph: bool, indent: int) -> Seq<char>
    decreases b, 3nat,
{
    let prefix = repeat_spec(' ', indent as nat);
    let inner = sat_sum(indent, 4);
    match b {
        Block::Paragraph { content } => prefix + (if after_paragraph {
            "    "@
        } else {
            "  \\item "@
        }) + latex_inlines(content@) + seq!['\n'],
        Block::UnorderedList { items } => latex_list("itemize"@, items@, inner),
        Block::OrderedList { items, .. } => latex_list("enumerate"@, items@, inner),
        Block::DescriptionList { items } => latex_description(items@, inner),
        _ => prefixed(prefix + "    "@, lines_spec(finished(latex_block(seq![], b, false)))),
    }
}

// ---------------------------------------------------------------------------
// Writing
// ---------------------------------------------------------------------------

fn push_escaped(out: &mut Vec<char>, s: &String, in_url: bool)
    ensures
        final(out)@ == old(out)@ + escape_spec(s@, in_url),
{
    push_all(out, &escape_latex(&chars_of_string(s), in_url));
}

fn sat_add(a: usize, b: usize) -> (r: usize)
    ensures
        r == sat_sum(a as int, b as int),
{
    if a <= usize::MAX - b {
        a + b
    } else {
        usize::MAX
    }
}

/// Appends each line of `text` after `prefix`.
fn push_prefixed_lines(out: &mut Vec<char>, prefix: &Vec<char>, text: &Vec<char>)
    ensures
        final(out)@ == old(out)@ + prefixed(prefix@, lines_spec(text@)),
{
    let ghost start = out@;
    let ls = lines(text);
    let ghost views_ls = views(ls@);
    let mut k: usize = 0;
    while k < ls.len()
        invariant
            k <= ls.len(),
            views_ls == views(ls@),
            views_ls.len() == ls@.len(),
            out@ == start + prefixed(prefix@, views_ls.subrange(0, k as int)),
        decreases ls.len() - k,
    {
        push_all(out, prefix);
        push_all(out, &ls[k]);
        out.push('\n');
        proof {
            assert(views_ls.subrange(0, k + 1).drop_last() =~= views_ls.subrange(0, k as int));
            assert(views_ls[k as int] == ls@[k as int]@);
            assert(out@ =~= start + prefixed(prefix@, views_ls.subrange(0, k + 1)));
        }
        k += 1;
    }
    assert(views_ls.subrange(0, views_ls.len() as int) =~= views_ls);
}

fn emit_blocks(out: &mut Vec<char>, blocks: &Vec<Block>)
    ensures
        final(out)@ == latex_blocks(old(out)@, blocks@),
    decreases blocks, 3nat,
{
    let ghost start = out@;
    let mut i: usize = 0;
    assert(blocks@.subrange(0, 0) =~= seq![]);
    while i < blocks.len()
        invariant
            i <= blocks.len(),
            out@ == latex_blocks(start, blocks@.subrange(0, i as int)),
        decreases blocks.len() - i,
    {
        assert(decreases_to!(blocks => blocks@[i as int]));
        emit_block(out, &blocks[i], i > 0);
        proof {
            assert(blocks@.subrange(0, i + 1).drop_last() =~= blocks@.subrange(0, i as int));
        }
        i += 1;
    }
    assert(blocks@.subrange(0, blocks@.len() as int) =~= blocks@);
}

/// The sectioning command of a heading level.
pub(crate) fn heading_command(level: u8) -> (r: &'static str)
    ensures
        r@ == heading_command_spec(level),
{
    if level == 1 {
        "section"
    } else if level == 2 {
        "subsection"
    } else if level == 3 {
        "subsubsection"
    } else if level == 4 {
        "paragraph"
    } else {
        "subparagraph"
    }
}

/// Writes one block; `later` when blocks came before it in the same sequence.
fn emit_block(out: &mut Vec<char>, block: &Block, later: bool)
    ensures
        final(out)@ == latex_block(old(out)@, *block, later),
    decreases block, 2nat,
{
    if let Block::Paragraph { content } = block {
        if content.len() == 0 {
            return;
        }
    }
    if later {
        ensure_blank_line(out);
    }
    emit_body(out, block);
}

fn emit_body(out: &mut Vec<char>, block: &Block)
    ensures
        final(out)@ == old(out)@ + latex_body(*block),
    decreases block, 1nat,
{
    let ghost start = out@;
    match block {
        Block::Heading { level, content } => {
            push_str(out, "\\");
            push_str(out, heading_command(*level));
            push_str(out, "{");
            emit_inlines(out, content);
            push_str(out, "}\n");
        },
        Block::Paragraph { content } => {
            emit_inlines(out, content);
            out.push('\n');
        },
        Block::CodeBlock { language, content } => {
            push_str(out, "\\begin{lstlisting}");
            if let Some(lang) = language {
                push_str(out, "[language=");
                push_string(out, lang);
                push_str(out, "]");
            }
            out.push('\n');
            push_string(out, content);
            out.push('\n');
            push_str(out, "\\end{lstlisting}\n");
        },
        Block::BlockQuote { children } => {
            push_str(out, "\\begin{quote}\n");
            let mut inner: Vec<char> = Vec::new();
            emit_blocks(&mut inner, children);
            let inner = chars_of_string(&finish_output(&inner));
            push_all(out, &trim_end_char(&inner, '\n'));
            push_str(out, "\n\\end{quote}\n");
        },
        Block::UnorderedList { items } => emit_list(out, "itemize", items, 0),
        Block::OrderedList { items, .. } => emit_list(out, "enumerate", items, 0),
        Block::DescriptionList { items } => emit_description_list(out, items, 0),
        Block::Table { headers, alignments, rows } => emit_table(out, headers, alignments, rows),
        Block::HorizontalRule => push_str(out, "\\hrule\n"),
        Block::RawBlock { content, .. } => {
            push_string(out, content);
            out.push('\n');
        },
    }
    assert(out@ =~= start + latex_body(*block));
}

fn emit_list(out: &mut Vec<char>, environment: &str, items: &Vec<ListItem>, indent: usize)
    ensures
        final(out)@ == old(out)@ + latex_list(environment@, items@, indent as int),
    decreases items, 2nat,
{
    let ghost begin = out@;
    let prefix = repeat(' ', indent);
    push_all(out, &prefix);
    push_str(out, "\\begin{");
    push_str(out, environment);
    push_str(out, "}\n");
    let ghost head = out@;
    let mut i: usize = 0;
    while i < items.len()
        invariant
            i <= items.len(),
            prefix@ == repeat_spec(' ', indent as nat),
            out@ == head + latex_items(items@.subrange(0, i as int), indent as int),
        decreases items.len() - i,
    {
        assert(decreases_to!(items => items@[i as int]));
        emit_item(out, &items[i], &prefix, indent);
        proof {
            assert(items@.subrange(0, i + 1).drop_last() =~= items@.subrange(0, i as int));
            assert(out@ =~= head + latex_items(items@.subrange(0, i + 1), indent as int));
        }
        i += 1;
    }
    assert(items@.subrange(0, items@.len() as int) =~= items@);
    push_all(out, &prefix);
    push_str(out, "\\end{");
    push_str(out, environment);
    push_str(out, "}\n");
    assert(out@ =~= begin + latex_list(environment@, items@, indent as int));
}

fn emit_item(out: &mut Vec<char>, item: &ListItem, prefix: &Vec<char>, indent: usize)
    requires
        prefix@ == repeat_spec(' ', indent as nat),
    ensures
        final(out)@ == old(out)@ + latex_item(item.content@, indent as int),
    decreases item, 1nat,
{
    let ghost start = out@;
    let mut first_done = false;
    let mut j: usize = 0;
    while j < item.content.len()
        invariant
            j <= item.content.len(),
            prefix@ == repeat_spec(' ', indent as nat),
            first_done == has_paragraph(item.content@.subrange(0, j as int)),
            out@ == start + latex_item(item.content@.subrange(0, j as int), indent as int),
        decreases item.content.len() - j,
    {
        let block = &item.content[j];
        assert(decreases_to!(item => item.content));
        assert(decreases_to!(item.content => item.content@[j as int]));
        proof {
            assert(item.content@.subrange(0, j + 1).drop_last() =~= item.content@.subrange(0, j as int));
        }
        emit_item_block(out, block, prefix, indent, first_done);
        proof {
            let next = item.content@.subrange(0, j + 1);
            if block is Paragraph {
                assert(next[j as int] is Paragraph);
            } else if has_paragraph(next) {
                let w = choose|w: int| 0 <= w < next.len() && next[w] is Paragraph;
                assert(item.content@.subrange(0, j as int)[w] is Paragraph);
            }
        }
        if let Block::Paragraph { .. } = block {
            first_done = true;
        }
        j += 1;
    }
    assert(item.content@.subrange(0, item.content@.len() as int) =~= item.content@);
}

fn emit_item_block(out: &mut Vec<char>, block: &Block, prefix: &Vec<char>, indent: usize, after_paragraph: bool)
    requires
        prefix@ == repeat_spec(' ', indent as nat),
    ensures
        final(out)@ == old(out)@ + latex_item_block(*block, after_paragraph, indent as int),
    decreases block, 3nat,
{
    let ghost start = out@;
    let inner_indent = sat_add(indent, 4);
    match block {
        Block::Paragraph { content } => {
            push_all(out, prefix);
            if !after_paragraph {
                push_str(out, "  \\item ");
            } else {
                push_str(out, "    ");
            }
            emit_inlines(out, content);
            out.push('\n');
        },
        Block::UnorderedList { items } => emit_list(out, "itemize", items, inner_indent),
        Block::OrderedList { items, .. } => emit_list(out, "enumerate", items, inner_indent),
        Block::DescriptionList { items } => emit_description_list(out, items, inner_indent),
        _ => {
            let mut inner: Vec<char> = Vec::new();
            emit_block(&mut inner, block, false);
            let inner = chars_of_string(&finish_output(&inner));
            let mut lead = copy(prefix);
            push_str(&mut lead, "    ");
            push_prefixed_lines(out, &lead, &inner);
        },
    }
    assert(out@ =~= start + latex_item_block(*block, after_paragraph, indent as int));
}

fn emit_description_list(out: &mut Vec<char>, items: &Vec<DescriptionItem>, indent: usize)
    ensures
        final(out)@ == old(out)@ + latex_description(items@, indent as int),
{
    let ghost begin = out@;
    let prefix = repeat(' ', indent);
    push_all(out, &prefix);
    push_str(out, "\\begin{description}\n");
    let ghost head = out@;
    let mut k: usize = 0;
    while k < items.len()
        invariant
            k <= items.len(),
            prefix@ == repeat_spec(' ', indent as nat),
            out@ == head + description_entries(prefix@, items@.subrange(0, k as int)),
        decreases items.len() - k,
    {
        let item = &items[k];
        push_all(out, &prefix);
        push_str(out, "  \\item[");
        emit_inlines(out, &item.term);
        push_str(out, "] ");
        let ghost entry = out@;
        let ghost mut parts: Seq<Seq<char>> = seq![];
        let mut first = true;
        let mut d: usize = 0;
        while d < item.definitions.len()
            invariant
                d <= item.definitions.len(),
                parts == definitions_parts(item.definitions@.subrange(0, d as int)),
                first == (parts.len() == 0),
                out@ == entry + join_spec(parts, " "@),
            decreases item.definitions.len() - d,
        {
            let defs = &item.definitions[d];
            let ghost before = parts;
            let mut e: usize = 0;
            while e < defs.len()
                invariant
                    e <= defs.len(),
                    parts == before + definition_parts(defs@.subrange(0, e as int)),
                    first == (parts.len() == 0),
                    out@ == entry + join_spec(parts, " "@),
                decreases defs.len() - e,
            {
                proof {
                    assert(defs@.subrange(0, e + 1).drop_last() =~= defs@.subrange(0, e as int));
                }
                if let Block::Paragraph { content } = &defs[e] {
                    if !first {
                        push_str(out, " ");
                    }
                    let ghost piece = latex_inlines(content@);
                    emit_inlines(out, content);
                    proof {
                        lemma_join_push(parts, " "@, piece);
                        assert(before + definition_parts(defs@.subrange(0, e + 1)) =~= parts.push(piece));
                        parts = parts.push(piece);
                    }
                    first = false;
                } else {
                    proof {
                        assert(before + definition_parts(defs@.subrange(0, e + 1)) =~= parts);
                    }
                }
                e += 1;
            }
            proof {
                assert(defs@.subrange(0, defs@.len() as int) =~= defs@);
                assert(item.definitions@.subrange(0, d + 1).drop_last() =~= item.definitions@.subrange(0, d as int));
                assert(parts =~= definitions_parts(item.definitions@.subrange(0, d + 1)));
            }
            d += 1;
        }
        out.push('\n');
        proof {
            assert(item.definitions@.subrange(0, item.definitions@.len() as int) =~= item.definitions@);
            assert(items@.subrange(0, k + 1).drop_last() =~= items@.subrange(0, k as int));
            assert(out@ =~= head + description_entries(prefix@, items@.subrange(0, k + 1)));
        }
        k += 1;
    }
    assert(items@.subrange(0, items@.len() as int) =~= items@);
    push_all(out, &prefix);
    push_str(out, "\\end{description}\n");
    assert(out@ =~= begin + latex_description(items@, indent as int));
}

/// The number of logical columns of a row: the sum of its colspans.
pub(crate) fn logical_columns(cells: &Vec<TableCell>) -> (n: usize)
    ensures
        n == logical_columns_spec(cells@),
{
    let mut n: usize = 0;
    let mut i: usize = 0;
    while i < cells.len()
        invariant
            i <= cells.len(),
            n == logical_columns_spec(cells@.subrange(0, i as int)),
        decreases cells.len() - i,
    {
        assert(cells@.subrange(0, i + 1).drop_last() =~= cells@.subrange(0, i as int));
        n = sat_add(n, cells[i].colspan as usize);
        i += 1;
    }
    assert(cells@.subrange(0, cells@.len() as int) =~= cells@);
    n
}

/// The number of columns of a table: the most logical columns of a row.
fn column_count(headers: &Vec<TableCell>, rows: &Vec<Vec<TableCell>>) -> (n: usize)
    ensures
        n == table_columns(headers@, rows@),
{
    let mut columns = logical_columns(headers);
    let mut r: usize = 0;
    while r < rows.len()
        invariant
            r <= rows.len(),
            columns == table_columns(headers@, rows@.subrange(0, r as int)),
        decreases rows.len() - r,
    {
        assert(rows@.subrange(0, r + 1).drop_last() =~= rows@.subrange(0, r as int));
        let n = logical_columns(&rows[r]);
        if n > columns {
            columns = n;
        }
        r += 1;
    }
    assert(rows@.subrange(0, rows@.len() as int) =~= rows@);
    columns
}

/// Writes the alignment letter of each of `columns` columns.
fn emit_column_letters(out: &mut Vec<char>, alignments: &Vec<ColumnAlignment>, columns: usize)
    ensures
        final(out)@ == old(out)@ + column_letters(alignments@, columns as int),
{
    let ghost letters = out@;
    let mut i: usize = 0;
    assert(out@ =~= letters + column_letters(alignments@, 0));
    while i < columns
        invariant
            i <= columns,
            out@ == letters + column_letters(alignments@, i as int),
        decreases columns - i,
    {
        let a = if i < alignments.len() {
            alignments[i]
        } else {
            ColumnAlignment::Default
        };
        out.push(
            match a {
                ColumnAlignment::Center => 'c',
                ColumnAlignment::Right => 'r',
                _ => 'l',
            },
        );
        assert(out@ =~= letters + column_letters(alignments@, i + 1));
        i += 1;
    }
}

fn emit_table(
    out: &mut Vec<char>,
    headers: &Vec<TableCell>,
    alignments: &Vec<ColumnAlignment>,
    rows: &Vec<Vec<TableCell>>,
)
    ensures
        final(out)@ == old(out)@ + latex_table(headers@, alignments@, rows@),
{
    let ghost begin = out@;
    let columns = column_count(headers, rows);
    push_str(out, "\\begin{tabular}{");
    if columns == 0 {
        out.push('l');
    }
    emit_column_letters(out, alignments, columns);
    push_str(out, "}\n");
    emit_table_row(out, headers);
    push_str(out, "\\hline\n");
    let ghost body = out@;
    let mut r: usize = 0;
    while r < rows.len()
        invariant
            r <= rows.len(),
            out@ == body + latex_rows(rows@.subrange(0, r as int)),
        decreases rows.len() - r,
    {
        emit_table_row(out, &rows[r]);
        proof {
            assert(rows@.subrange(0, r + 1).drop_last() =~= rows@.subrange(0, r as int));
            assert(out@ =~= body + latex_rows(rows@.subrange(0, r + 1)));
        }
        r += 1;
    }
    assert(rows@.subrange(0, rows@.len() as int) =~= rows@);
    push_str(out, "\\end{tabular}\n");
    assert(out@ =~= begin + latex_table(headers@, alignments@, rows@));
}

fn emit_table_row(out: &mut Vec<char>, cells: &Vec<TableCell>)
    ensures
        final(out)@ == old(out)@ + latex_row(cells@),
{
    let ghost start = out@;
    let mut i: usize = 0;
    while i < cells.len()
        invariant
            i <= cells.len(),
            out@ == start + latex_cells(cells@.subrange(0, i as int)),
        decreases cells.len() - i,
    {
        let ghost before = out@;
        if i > 0 {
            push_str(out, " & ");
        }
        emit_cell(out, &cells[i]);
        proof {
            assert(cells@.subrange(0, i + 1).drop_last() =~= cells@.subrange(0, i as int));
            assert(out@ =~= start + latex_cells(cells@.subrange(0, i + 1)));
        }
        i += 1;
    }
    assert(cells@.subrange(0, cells@.len() as int) =~= cells@);
    push_str(out, " \\\\\n");
}

fn emit_cell(out: &mut Vec<char>, cell: &TableCell)
    ensures
        final(out)@ == old(out)@ + latex_cell(*cell),
{
    let ghost start = out@;
    if cell.rowspan > 1 {
        push_str(out, "\\multirow{");
        push_decimal(out, cell.rowspan as u64);
        push_str(out, "}{*}{");
    }
    let ghost a = out@;
    assert(a =~= start + (if cell.rowspan > 1 {
        "\\multirow{"@ + decimal(cell.rowspan as nat) + "}{*}{"@
    } else {
        seq![]
    }));
    if cell.colspan > 1 {
        push_str(out, "\\multicolumn{");
        push_decimal(out, cell.colspan as u64);
        push_str(out, "}{l}{");
    }
    let ghost b = out@;
    assert(b =~= a + (if cell.colspan > 1 {
        "\\multicolumn{"@ + decimal(cell.colspan as nat) + "}{l}{"@
    } else {
        seq![]
    }));
    emit_inlines(out, &cell.content);
    let ghost c = out@;
    if cell.colspan > 1 {
        push_str(out, "}");
    }
    let ghost d = out@;
    assert(d =~= c + (if cell.colspan > 1 {
        "}"@
    } else {
        seq![]
    }));
    if cell.rowspan > 1 {
        push_str(out, "}");
    }
    assert(out@ =~= d + (if cell.rowspan > 1 {
        "}"@
    } else {
        seq![]
    }));
    assert(out@ =~= start + latex_cell(*cell));
}

fn emit_inlines(out: &mut Vec<char>, inlines: &Vec<Inline>)
    ensures
        final(out)@ == old(out)@ + latex_inlines(inlines@),
    decreases inlines, 1nat,
{
    let ghost start = out@;
    let mut i: usize = 0;
    while i < inlines.len()
        invariant
            i <= inlines.len(),
            out@ == start + latex_inlines(inlines@.subrange(0, i as int)),
        decreases inlines.len() - i,
    {
        assert(decreases_to!(inlines => inlines@[i as int]));
        emit_inline(out, &inlines[i]);
        proof {
            assert(inlines@.subrange(0, i + 1).drop_last() =~= inlines@.subrange(0, i as int));
            assert(out@ =~= start + latex_inlines(inlines@.subrange(0, i + 1)));
        }
        i += 1;
    }
    assert(inlines@.subrange(0, inlines@.len() as int) =~= inlines@);
}

fn emit_wrapped(out: &mut Vec<char>, command: &str, content: &Vec<Inline>)
    ensures
        final(out)@ == old(out)@ + "\\"@ + command@ + "{"@ + latex_inlines(content@) + "}"@,
    decreases content, 2nat,
{
    push_str(out, "\\");
    push_str(out, command);
    push_str(out, "{");
    emit_inlines(out, content);
    push_str(out, "}");
}

fn emit_inline(out: &mut Vec<char>, inline: &Inline)
    ensures
        final(out)@ == old(out)@ + latex_inline(*inline),
    decreases inline, 0nat,
{
    let ghost start = out@;
    match inline {
        Inline::Text(t) => push_escaped(out, t, false),
        Inline::Bold(c) => emit_wrapped(out, "textbf", c),
        Inline::Italic(c) => emit_wrapped(out, "textit", c),
        Inline::BoldItalic(c) => {
            push_str(out, "\\textbf{\\textit{");
            emit_inlines(out, c);
            push_str(out, "}}");
        },
        Inline::Strikethrough(c) => emit_wrapped(out, "sout", c),
        Inline::Superscript(c) => emit_wrapped(out, "textsuperscript", c),
        Inline::Subscript(c) => emit_wrapped(out, "textsubscript", c),
        Inline::InlineCode(code) => {
            push_str(out, "\\texttt{");
            push_escaped(out, code, false);
            push_str(out, "}");
        },
        Inline::Link { url, text, .. } => {
            push_str(out, "\\href{");
            push_escaped(out, url, true);
            push_str(out, "}{");
            emit_inlines(out, text);
            push_str(out, "}");
        },
        Inline::Image { url, link, .. } => {
            if let Some(l) = link {
                push_str(out, "\\href{");
                push_escaped(out, l, true);
                push_str(out, "}{");
            }
            assert(out@ =~= start + match link {
                Some(l) => "\\href{"@ + escape_spec(l@, true) + "}{"@,
                None => seq![],
            });
            push_str(out, "\\includegraphics{");
            push_escaped(out, url, true);
            push_str(out, "}");
            let ghost img = out@;
            if link.is_some() {
                push_str(out, "}");
            }
            assert(out@ =~= img + (if link is Some {
                "}"@
            } else {
                seq![]
            }));
        },
        Inline::HardLineBreak => push_str(out, "\\\\\n"),
        Inline::SoftLineBreak => out.push('\n'),
        Inline::RawInline { content, .. } => push_string(out, content),
    }
    assert(out@ =~= start + latex_inline(*inline));
}

} // verus!
