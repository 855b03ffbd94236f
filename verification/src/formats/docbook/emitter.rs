//! Strict DocBook writer.
use vstd::prelude::*;

use crate::ast::{Block, ColumnAlignment, DescriptionItem, Document, Inline, ListItem, TableCell};
use crate::error::EmitError;
use crate::format::Emitter;
use crate::formats::common::{ends_with_single_newline};
use crate::formats::html::emitter::{plain_inlines, plain_text};
use crate::formats::strict_xml::{escape_xml, escape_xml_attr, xml_escape_spec};
use crate::text::{decimal, has_suffix, push_all, push_decimal, push_str, string_of};

verus! {

pub struct DocBookEmitter;

impl Emitter for DocBookEmitter {
    fn emit(&self, doc: &Document) -> (r: Result<String, EmitError>)
        ensures
            r matches Ok(s) && s@ == docbook_document(doc.children@),
            r matches Ok(s) && ends_with_single_newline(s@),
    {
        Ok(emit_docbook(&doc.children))
    }
}

// ---------------------------------------------------------------------------
// The text written
// ---------------------------------------------------------------------------

/// The opening of the `<article>` element.
pub open spec fn article_open() -> Seq<char> {
    "<article xmlns=\"http://docbook.org/ns/docbook\" xmlns:xlink=\"http://www.w3.org/1999/xlink\" version=\"5.2\">\n"@
}

/// A whole document: the blocks inside an `<article>`.
pub open spec fn docbook_document(blocks: Seq<Block>) -> Seq<char> {
    article_open() + docbook_blocks(blocks) + "</article>\n"@
}

pub open spec fn db_text(s: Seq<char>) -> Seq<char> {
    xml_escape_spec(s, false)
}

pub open spec fn db_attr(s: Seq<char>) -> Seq<char> {
    xml_escape_spec(s, true)
}

/// ` name="value"` where the value is given.
pub open spec fn db_optional_attr(name: Seq<char>, value: Option<String>) -> Seq<char> {
    match value {
        Some(v) => " "@ + name + "=\""@ + db_attr(v@) + "\""@,
        None => seq![],
    }
}

/// `"" xlink:title="title` where a title is given (inside an open attribute).
pub open spec fn db_title(title: Option<String>) -> Seq<char> {
    match title {
        Some(t) => "\" xlink:title=\""@ + db_attr(t@),
        None => seq![],
    }
}

/// How an inline node is written.
pub open spec fn docbook_inline(x: Inline) -> Seq<char>
    decreases x,
{
    match x {
        Inline::Text(t) => db_text(t@),
        Inline::Bold(c) => "<emphasis role=\"strong\">"@ + docbook_inlines(c@) + "</emphasis>"@,
        Inline::Italic(c) => "<"@ + "emphasis"@ + ">"@ + docbook_inlines(c@) + "</"@ + "emphasis"@
            + ">"@,
        Inline::BoldItalic(c) => "<phrase role=\"bold-italic\">"@ + docbook_inlines(c@) + "</phrase>"@,
        Inline::Strikethrough(c) => "<phrase role=\"strikethrough\">"@ + docbook_inlines(c@)
            + "</phrase>"@,
        Inline::Superscript(c) => "<"@ + "superscript"@ + ">"@ + docbook_inlines(c@) + "</"@
            + "superscript"@ + ">"@,
        Inline::Subscript(c) => "<"@ + "subscript"@ + ">"@ + docbook_inlines(c@) + "</"@
            + "subscript"@ + ">"@,
        Inline::InlineCode(code) => "<code>"@ + db_text(code@) + "</code>"@,
        Inline::Link { url, text, title } => "<link xlink:href=\""@ + db_attr(url@) + db_title(title)
            + "\">"@ + docbook_inlines(text@) + "</link>"@,
        Inline::Image { url, alt, title, link } => (match link {
            Some(l) => "<link xlink:href=\""@ + db_attr(l@) + "\">"@,
            None => seq![],
        }) + "<inlinemediaobject><imageobject><imagedata fileref=\""@ + db_attr(url@) + db_title(title)
            + "\"/></imageobject><textobject><phrase>"@ + db_text(plain_inlines(alt@))
            + "</phrase></textobject></inlinemediaobject>"@ + (if link is Some {
            "</link>"@
        } else {
            seq![]
        }),
        Inline::HardLineBreak => "<phrase role=\"morph-hard-break\"/>"@,
        Inline::SoftLineBreak => "<phrase role=\"morph-soft-break\"/>"@,
        Inline::RawInline { format, content } => "<phrase role=\"morph-raw\""@ + db_optional_attr(
            "remap"@,
            format,
        ) + ">"@ + db_text(content@) + "</phrase>"@,
    }
}

pub open spec fn docbook_inlines(s: Seq<Inline>) -> Seq<char>
    decreases s,
{
    if s.len() == 0 {
        seq![]
    } else {
        docbook_inlines(s.drop_last()) + docbook_inline(s.last())
    }
}

/// A sum held in a `usize`: it stops at `usize::MAX`.
pub open spec fn sat_sum(a: int, b: int) -> int {
    if a + b <= usize::MAX {
        a + b
    } else {
        usize::MAX as int
    }
}

/// The columns a row of cells covers (each cell its span).
pub open spec fn logical_columns_spec(cells: Seq<TableCell>) -> int
    decreases cells.len(),
{
    if cells.len() == 0 {
        0
    } else {
        sat_sum(logical_columns_spec(cells.drop_last()), cells.last().colspan as int)
    }
}

/// The widest of the header row and the body rows.
pub open spec fn table_columns(headers: Seq<TableCell>, rows: Seq<Vec<TableCell>>) -> int
    decreases rows.len(),
{
    if rows.len() == 0 {
        logical_columns_spec(headers)
    } else {
        let w = table_columns(headers, rows.drop_last());
        let n = logical_columns_spec(rows.last()@);
        if n > w {
            n
        } else {
            w
        }
    }
}

/// The alignment attribute of column `index`.
pub open spec fn db_align(alignments: Seq<ColumnAlignment>, index: int) -> Seq<char> {
    if 0 <= index < alignments.len() {
        match alignments[index] {
            ColumnAlignment::Left => " align=\"left\""@,
            ColumnAlignment::Center => " align=\"center\""@,
            ColumnAlignment::Right => " align=\"right\""@,
            ColumnAlignment::Default => seq![],
        }
    } else {
        seq![]
    }
}

/// The `colspec` elements of the first `n` columns.
pub open spec fn colspecs(alignments: Seq<ColumnAlignment>, n: int) -> Seq<char>
    decreases n,
{
    if n <= 0 {
        seq![]
    } else {
        colspecs(alignments, n - 1) + "<colspec colname=\"c"@ + decimal(n as nat) + "\""@ + db_align(
            alignments,
            n - 1,
        ) + "/>\n"@
    }
}

/// The first column from `c` on that no row span from above still covers.
pub open spec fn next_free(occupied: Seq<u32>, c: int) -> int
    decreases occupied.len() - c,
{
    if 0 <= c < occupied.len() && occupied[c] > 0 {
        next_free(occupied, c + 1)
    } else {
        c
    }
}

/// How a cell placed at `column` is written.
pub open spec fn entry_text(cell: TableCell, column: int) -> Seq<char> {
    "<entry"@ + (if cell.colspan > 1 {
        " namest=\"c"@ + decimal(sat_sum(column, 1) as nat) + "\" nameend=\"c"@ + decimal(
            sat_sum(column, cell.colspan as int) as nat,
        ) + "\""@
    } else {
        seq![]
    }) + (if cell.rowspan > 1 {
        " morerows=\""@ + decimal((cell.rowspan - 1) as nat) + "\""@
    } else {
        seq![]
    }) + ">"@ + docbook_inlines(cell.content@) + "</entry>"@
}

/// The columns a cell at `column` spanning `span` columns covers, marked as
/// covered for `rows` more rows.
pub open spec fn mark_span(occupied: Seq<u32>, column: int, span: int, rows: u32) -> Seq<u32> {
    Seq::new(
        occupied.len(),
        |j: int|
            if column <= j < column + span {
                rows
            } else {
                occupied[j]
            },
    )
}

/// The cells from index `i` on, the next one looked for from `column`: what
/// they write, and the coverage they leave.
pub open spec fn cals_cells(cells: Seq<TableCell>, i: int, column: int, occupied: Seq<u32>) -> (
    Seq<char>,
    Seq<u32>,
)
    decreases cells.len() - i,
{
    if i < 0 || i >= cells.len() {
        (seq![], occupied)
    } else {
        let cell = cells[i];
        let at = next_free(occupied, column);
        let marked = if cell.rowspan > 1 {
            mark_span(occupied, at, cell.colspan as int, cell.rowspan)
        } else {
            occupied
        };
        let rest = cals_cells(cells, i + 1, sat_sum(at, cell.colspan as int), marked);
        (entry_text(cell, at) + rest.0, rest.1)
    }
}

/// One row fewer for every span still running.
pub open spec fn step_down(occupied: Seq<u32>) -> Seq<u32> {
    Seq::new(
        occupied.len(),
        |j: int|
            if occupied[j] > 0 {
                (occupied[j] - 1) as u32
            } else {
                0u32
            },
    )
}

/// A row: what it writes, and the coverage left for the next row.
pub open spec fn cals_row(cells: Seq<TableCell>, occupied: Seq<u32>) -> (Seq<char>, Seq<u32>) {
    let r = cals_cells(cells, 0, 0, occupied);
    ("<row>"@ + r.0 + "</row>\n"@, step_down(r.1))
}

/// Rows written one after another, each with the coverage the row before
/// it left.
pub open spec fn cals_rows(rows: Seq<Vec<TableCell>>, occupied: Seq<u32>) -> (Seq<char>, Seq<u32>)
    decreases rows.len(),
{
    if rows.len() == 0 {
        (seq![], occupied)
    } else {
        let before = cals_rows(rows.drop_last(), occupied);
        let last = cals_row(rows.last()@, before.1);
        (before.0 + last.0, last.1)
    }
}

/// How a table is written: a CALS table with one `colspec` per column.
pub open spec fn docbook_table(
    headers: Seq<TableCell>,
    alignments: Seq<ColumnAlignment>,
    rows: Seq<Vec<TableCell>>,
) -> Seq<char> {
    let columns = table_columns(headers, rows);
    let head = cals_row(headers, Seq::new(columns as nat, |j: int| 0u32));
    "<informaltable><tgroup cols=\""@ + decimal(columns as nat) + "\">\n"@ + colspecs(alignments, columns)
        + "<thead>\n"@ + head.0 + "</thead>\n<tbody>\n"@ + cals_rows(rows, head.1).0
        + "</tbody>\n</tgroup></informaltable>\n"@
}

/// `startingnumber` of an ordered list that does not start at 1.
pub open spec fn starting_number(start: Option<u32>) -> Seq<char> {
    match start {
        Some(s) => if s != 1 {
            " startingnumber=\""@ + decimal(s as nat) + "\""@
        } else {
            seq![]
        },
        None => seq![],
    }
}

/// How a block is written.
pub open spec fn docbook_block(b: Block) -> Seq<char>
    decreases b,
{
    match b {
        Block::Heading { level, content } => "<bridgehead renderas=\"sect"@ + decimal(level as nat)
            + "\">"@ + docbook_inlines(content@) + "</bridgehead>\n"@,
        Block::Paragraph { content } => if content@.len() > 0 {
            "<para>"@ + docbook_inlines(content@) + "</para>\n"@
        } else {
            seq![]
        },
        Block::CodeBlock { language, content } => "<programlisting"@ + db_optional_attr(
            "language"@,
            language,
        ) + ">"@ + db_text(content@) + "</programlisting>\n"@,
        Block::BlockQuote { children } => "<blockquote>\n"@ + docbook_blocks(children@)
            + "</blockquote>\n"@,
        Block::UnorderedList { items } => "<"@ + "itemizedlist"@ + starting_number(None) + ">\n"@
            + docbook_items(items@) + "</"@ + "itemizedlist"@ + ">\n"@,
        Block::OrderedList { start, items } => "<"@ + "orderedlist"@ + starting_number(Some(start))
            + ">\n"@ + docbook_items(items@) + "</"@ + "orderedlist"@ + ">\n"@,
        Block::DescriptionList { items } => "<variablelist>\n"@ + docbook_entries(items@)
            + "</variablelist>\n"@,
        Block::Table { headers, alignments, rows } => docbook_table(headers@, alignments@, rows@),
        Block::HorizontalRule => "<para role=\"morph-horizontal-rule\"/>\n"@,
        Block::RawBlock { format, content } => "<programlisting role=\"morph-raw\""@
            + db_optional_attr("remap"@, format) + ">"@ + db_text(content@) + "</programlisting>\n"@,
    }
}

pub open spec fn docbook_blocks(s: Seq<Block>) -> Seq<char>
    decreases s,
{
    if s.len() == 0 {
        seq![]
    } else {
        docbook_blocks(s.drop_last()) + docbook_block(s.last())
    }
}

pub open spec fn docbook_items(s: Seq<ListItem>) -> Seq<char>
    decreases s,
{
    if s.len() == 0 {
        seq![]
    } else {
        docbook_items(s.drop_last()) + "<listitem>\n"@ + docbook_blocks(s.last().content@)
            + "</listitem>\n"@
    }
}

pub open spec fn docbook_definitions(s: Seq<Vec<Block>>) -> Seq<char>
    decreases s,
{
    if s.len() == 0 {
        seq![]
    } else {
        docbook_definitions(s.drop_last()) + "<listitem>\n"@ + docbook_blocks(s.last()@)
            + "</listitem>\n"@
    }
}

pub open spec fn docbook_entries(s: Seq<DescriptionItem>) -> Seq<char>
    decreases s,
{
    if s.len() == 0 {
        seq![]
    } else {
        docbook_entries(s.drop_last()) + "<varlistentry><term>"@ + docbook_inlines(s.last().term@)
            + "</term>\n"@ + docbook_definitions(s.last().definitions@) + "</varlistentry>\n"@
    }
}

// ---------------------------------------------------------------------------
// Writing
// ---------------------------------------------------------------------------

/// Writes blocks as a DocBook `<article>`; the text ends with exactly one
/// newline.
pub fn emit_docbook(blocks: &Vec<Block>) -> (s: String)
    ensures
        s@ == docbook_document(blocks@),
        ends_with_single_newline(s@),
        has_suffix(s@, "</article>\n"@),
{
    let mut out: Vec<char> = Vec::new();
    push_str(
        &mut out,
        "<article xmlns=\"http://docbook.org/ns/docbook\" xmlns:xlink=\"http://www.w3.org/1999/xlink\" version=\"5.2\">\n",
    );
    emit_blocks(&mut out, blocks);
    let ghost mid = out@;
    push_str(&mut out, "</article>\n");
    proof {
        reveal_strlit("</article>\n");
        assert(out@ == mid + "</article>\n"@);
        assert(out@.subrange(out@.len() - 11, out@.len() as int) =~= "</article>\n"@);
        assert(out@ =~= docbook_document(blocks@));
    }
    string_of(&out)
}

fn push_escaped(out: &mut Vec<char>, s: &String)
    ensures
        final(out)@ == old(out)@ + db_text(s@),
{
    push_all(out, &escape_xml(s));
}

fn push_escaped_attr(out: &mut Vec<char>, s: &String)
    ensures
        final(out)@ == old(out)@ + db_attr(s@),
{
    push_all(out, &escape_xml_attr(s));
}

fn push_optional_attr(out: &mut Vec<char>, name: &str, value: &Option<String>)
    ensures
        final(out)@ == old(out)@ + db_optional_attr(name@, *value),
{
    let ghost start = out@;
    if let Some(v) = value {
        push_str(out, " ");
        push_str(out, name);
        push_str(out, "=\"");
        push_escaped_attr(out, v);
        push_str(out, "\"");
    }
    assert(out@ =~= start + db_optional_attr(name@, *value));
}

fn push_title(out: &mut Vec<char>, title: &Option<String>)
    ensures
        final(out)@ == old(out)@ + db_title(*title),
{
    let ghost start = out@;
    if let Some(t) = title {
        push_str(out, "\" xlink:title=\"");
        push_escaped_attr(out, t);
    }
    assert(out@ =~= start + db_title(*title));
}

fn emit_blocks(out: &mut Vec<char>, blocks: &Vec<Block>)
    ensures
        final(out)@ == old(out)@ + docbook_blocks(blocks@),
    decreases blocks, 2nat,
{
    let ghost start = out@;
    let mut i: usize = 0;
    while i < blocks.len()
        invariant
            i <= blocks.len(),
            out@ == start + docbook_blocks(blocks@.subrange(0, i as int)),
        decreases blocks.len() - i,
    {
        assert(decreases_to!(blocks => blocks@[i as int]));
        emit_block(out, &blocks[i]);
        proof {
            assert(blocks@.subrange(0, i + 1).drop_last() =~= blocks@.subrange(0, i as int));
            assert(out@ =~= start + docbook_blocks(blocks@.subrange(0, i + 1)));
        }
        i += 1;
    }
    assert(blocks@.subrange(0, blocks@.len() as int) =~= blocks@);
}

fn emit_block(out: &mut Vec<char>, block: &Block)
    ensures
        final(out)@ == old(out)@ + docbook_block(*block),
    decreases block, 1nat,
{
    let ghost start = out@;
    match block {
        Block::Heading { level, content } => {
            push_str(out, "<bridgehead renderas=\"sect");
            push_decimal(out, *level as u64);
            push_str(out, "\">");
            emit_inlines(out, content);
            push_str(out, "</bridgehead>\n");
        },
        Block::Paragraph { content } => {
            if content.len() > 0 {
                push_str(out, "<para>");
                emit_inlines(out, content);
                push_str(out, "</para>\n");
            }
        },
        Block::CodeBlock { language, content } => {
            push_str(out, "<programlisting");
            push_optional_attr(out, "language", language);
            push_str(out, ">");
            push_escaped(out, content);
            push_str(out, "</programlisting>\n");
        },
        Block::BlockQuote { children } => {
            push_str(out, "<blockquote>\n");
            emit_blocks(out, children);
            push_str(out, "</blockquote>\n");
        },
        Block::UnorderedList { items } => emit_list(out, "itemizedlist", items, None),
        Block::OrderedList { start, items } => emit_list(out, "orderedlist", items, Some(*start)),
        Block::DescriptionList { items } => emit_variable_list(out, items),
        Block::Table { headers, alignments, rows } => emit_table(out, headers, alignments, rows),
        Block::HorizontalRule => push_str(out, "<para role=\"morph-horizontal-rule\"/>\n"),
        Block::RawBlock { format, content } => {
            push_str(out, "<programlisting role=\"morph-raw\"");
            push_optional_attr(out, "remap", format);
            push_str(out, ">");
            push_escaped(out, content);
            push_str(out, "</programlisting>\n");
        },
    }
    assert(out@ =~= start + docbook_block(*block));
}

fn emit_list(out: &mut Vec<char>, tag: &str, items: &Vec<ListItem>, start: Option<u32>)
    ensures
        final(out)@ == old(out)@ + "<"@ + tag@ + starting_number(start) + ">\n"@ + docbook_items(items@)
            + "</"@ + tag@ + ">\n"@,
    decreases items, 0nat,
{
    let ghost begin = out@;
    push_str(out, "<");
    push_str(out, tag);
    if let Some(s) = start {
        if s != 1 {
            push_str(out, " startingnumber=\"");
            push_decimal(out, s as u64);
            push_str(out, "\"");
        }
    }
    push_str(out, ">\n");
    assert(out@ =~= begin + "<"@ + tag@ + starting_number(start) + ">\n"@);
    let ghost head = out@;
    let mut i: usize = 0;
    while i < items.len()
        invariant
            i <= items.len(),
            out@ == head + docbook_items(items@.subrange(0, i as int)),
        decreases items.len() - i,
    {
        assert(decreases_to!(items => items@[i as int]));
        assert(decreases_to!(items@[i as int] => items@[i as int].content));
        push_str(out, "<listitem>\n");
        emit_blocks(out, &items[i].content);
        push_str(out, "</listitem>\n");
        proof {
            assert(items@.subrange(0, i + 1).drop_last() =~= items@.subrange(0, i as int));
            assert(out@ =~= head + docbook_items(items@.subrange(0, i + 1)));
        }
        i += 1;
    }
    assert(items@.subrange(0, items@.len() as int) =~= items@);
    push_str(out, "</");
    push_str(out, tag);
    push_str(out, ">\n");
}

fn emit_variable_list(out: &mut Vec<char>, items: &Vec<DescriptionItem>)
    ensures
        final(out)@ == old(out)@ + "<variablelist>\n"@ + docbook_entries(items@) + "</variablelist>\n"@,
    decreases items, 0nat,
{
    push_str(out, "<variablelist>\n");
    let ghost start = out@;
    let mut k: usize = 0;
    while k < items.len()
        invariant
            k <= items.len(),
            out@ == start + docbook_entries(items@.subrange(0, k as int)),
        decreases items.len() - k,
    {
        let item = &items[k];
        push_str(out, "<varlistentry><term>");
        emit_inlines(out, &item.term);
        push_str(out, "</term>\n");
        let ghost mid = out@;
        let mut d: usize = 0;
        while d < item.definitions.len()
            invariant
                d <= item.definitions.len(),
                k < items@.len(),
                item == &items@[k as int],
                out@ == mid + docbook_definitions(item.definitions@.subrange(0, d as int)),
            decreases item.definitions.len() - d,
        {
            assert(decreases_to!(items => items@[k as int].definitions@[d as int])) by {
                assert(decreases_to!(items => items@[k as int]));
                assert(decreases_to!(items@[k as int] => items@[k as int].definitions));
                assert(decreases_to!(items@[k as int].definitions => items@[k as int].definitions@[d as int]));
            }
            push_str(out, "<listitem>\n");
            emit_blocks(out, &item.definitions[d]);
            push_str(out, "</listitem>\n");
            proof {
                assert(item.definitions@.subrange(0, d + 1).drop_last() =~= item.definitions@.subrange(0, d as int));
                assert(out@ =~= mid + docbook_definitions(item.definitions@.subrange(0, d + 1)));
            }
            d += 1;
        }
        push_str(out, "</varlistentry>\n");
        proof {
            assert(item.definitions@.subrange(0, item.definitions@.len() as int) =~= item.definitions@);
            assert(items@.subrange(0, k + 1).drop_last() =~= items@.subrange(0, k as int));
            assert(out@ =~= start + docbook_entries(items@.subrange(0, k + 1)));
        }
        k += 1;
    }
    assert(items@.subrange(0, items@.len() as int) =~= items@);
    push_str(out, "</variablelist>\n");
}

fn sat_add(a: usize, b: usize) -> (r: usize)
    ensures
        r == sat_sum(a as int, b as int),
{
    if a <= usize::MAX - b {
        a + b
    } else {
        usize::MAX
    }
}

fn logical_columns(cells: &Vec<TableCell>) -> (n: usize)
    ensures
        n == logical_columns_spec(cells@),
{
    let mut n: usize = 0;
    let mut i: usize = 0;
    while i < cells.len()
        invariant
            i <= cells.len(),
            n == logical_columns_spec(cells@.subrange(0, i as int)),
        decreases cells.len() - i,
    {
        assert(cells@.subrange(0, i + 1).drop_last() =~= cells@.subrange(0, i as int));
        n = sat_add(n, cells[i].colspan as usize);
        i += 1;
    }
    assert(cells@.subrange(0, cells@.len() as int) =~= cells@);
    n
}

/// The number of columns of a table: its widest row.
fn count_columns(headers: &Vec<TableCell>, rows: &Vec<Vec<TableCell>>) -> (n: usize)
    ensures
        n == table_columns(headers@, rows@),
{
    let mut columns = logical_columns(headers);
    let mut r: usize = 0;
    while r < rows.len()
        invariant
            r <= rows.len(),
            columns == table_columns(headers@, rows@.subrange(0, r as int)),
        decreases rows.len() - r,
    {
        assert(rows@.subrange(0, r + 1).drop_last() =~= rows@.subrange(0, r as int));
        let n = logical_columns(&rows[r]);
        if n > columns {
            columns = n;
        }
        r += 1;
    }
    assert(rows@.subrange(0, rows@.len() as int) =~= rows@);
    columns
}

/// Writes the `colspec` elements of `columns` columns.
fn emit_colspecs(out: &mut Vec<char>, alignments: &Vec<ColumnAlignment>, columns: usize)
    ensures
        final(out)@ == old(out)@ + colspecs(alignments@, columns as int),
{
    let ghost specs_start = out@;
    let mut index: usize = 0;
    while index < columns
        invariant
            index <= columns,
            out@ == specs_start + colspecs(alignments@, index as int),
        decreases columns - index,
    {
        push_str(out, "<colspec colname=\"c");
        push_decimal(out, index as u64 + 1);
        push_str(out, "\"");
        let ghost named = out@;
        if index < alignments.len() {
            match alignments[index] {
                ColumnAlignment::Left => push_str(out, " align=\"left\""),
                ColumnAlignment::Center => push_str(out, " align=\"center\""),
                ColumnAlignment::Right => push_str(out, " align=\"right\""),
                ColumnAlignment::Default => {},
            }
        }
        assert(out@ =~= named + db_align(alignments@, index as int));
        push_str(out, "/>\n");
        assert(out@ =~= specs_start + colspecs(alignments@, index + 1));
        index += 1;
    }
}

/// `n` columns that no span covers.
fn free_columns(n: usize) -> (v: Vec<u32>)
    ensures
        v@ == Seq::new(n as nat, |j: int| 0u32),
{
    let mut v: Vec<u32> = Vec::new();
    let mut k: usize = 0;
    while k < n
        invariant
            k <= n,
            v@ == Seq::new(k as nat, |j: int| 0u32),
        decreases n - k,
    {
        v.push(0);
        assert(v@ =~= Seq::new((k + 1) as nat, |j: int| 0u32));
        k += 1;
    }
    v
}

/// Writes the body rows, each with the coverage the rows above left.
fn emit_body_rows(out: &mut Vec<char>, rows: &Vec<Vec<TableCell>>, occupied: &mut Vec<u32>)
    ensures
        final(out)@ == old(out)@ + cals_rows(rows@, old(occupied)@).0,
        final(occupied)@ == cals_rows(rows@, old(occupied)@).1,
{
    let ghost body_start = out@;
    let ghost after_head = occupied@;
    let mut r: usize = 0;
    assert(rows@.subrange(0, 0) =~= seq![]);
    assert(body_start + seq![] =~= body_start);
    while r < rows.len()
        invariant
            r <= rows.len(),
            out@ == body_start + cals_rows(rows@.subrange(0, r as int), after_head).0,
            occupied@ == cals_rows(rows@.subrange(0, r as int), after_head).1,
        decreases rows.len() - r,
    {
        proof {
            assert(rows@.subrange(0, r + 1).drop_last() =~= rows@.subrange(0, r as int));
        }
        emit_cals_row(out, &rows[r], occupied);
        proof {
            assert(out@ =~= body_start + cals_rows(rows@.subrange(0, r + 1), after_head).0);
        }
        r += 1;
    }
    assert(rows@.subrange(0, rows@.len() as int) =~= rows@);
}

fn emit_table(
    out: &mut Vec<char>,
    headers: &Vec<TableCell>,
    alignments: &Vec<ColumnAlignment>,
    rows: &Vec<Vec<TableCell>>,
)
    ensures
        final(out)@ == old(out)@ + docbook_table(headers@, alignments@, rows@),
{
    let ghost begin = out@;
    let columns = count_columns(headers, rows);
    push_str(out, "<informaltable><tgroup cols=\"");
    push_decimal(out, columns as u64);
    push_str(out, "\">\n");
    emit_colspecs(out, alignments, columns);
    push_str(out, "<thead>\n");
    let mut occupied = free_columns(columns);
    let ghost zeros = occupied@;
    emit_cals_row(out, headers, &mut occupied);
    push_str(out, "</thead>\n<tbody>\n");
    emit_body_rows(out, rows, &mut occupied);
    push_str(out, "</tbody>\n</tgroup></informaltable>\n");
    assert(out@ =~= begin + docbook_table(headers@, alignments@, rows@));
}

/// The first column from `column` on that no row span from above covers.
fn next_free_column(occupied: &Vec<u32>, column: usize) -> (r: usize)
    ensures
        r == next_free(occupied@, column as int),
{
    let mut c = column;
    while c < occupied.len() && occupied[c] > 0
        invariant
            column <= c,
            next_free(occupied@, column as int) == next_free(occupied@, c as int),
        decreases occupied.len() - c,
    {
        c += 1;
    }
    c
}

/// Writes the entry of a cell placed at `column`.
fn emit_entry(out: &mut Vec<char>, cell: &TableCell, column: usize)
    ensures
        final(out)@ == old(out)@ + entry_text(*cell, column as int),
{
    let ghost start = out@;
    push_str(out, "<entry");
    let ghost opened = out@;
    if cell.colspan > 1 {
        push_str(out, " namest=\"c");
        push_decimal(out, sat_add(column, 1) as u64);
        push_str(out, "\" nameend=\"c");
        push_decimal(out, sat_add(column, cell.colspan as usize) as u64);
        push_str(out, "\"");
    }
    let ghost spanned = out@;
    assert(spanned =~= opened + (if cell.colspan > 1 {
        " namest=\"c"@ + decimal(sat_sum(column as int, 1) as nat) + "\" nameend=\"c"@ + decimal(
            sat_sum(column as int, cell.colspan as int) as nat,
        ) + "\""@
    } else {
        seq![]
    }));
    if cell.rowspan > 1 {
        push_str(out, " morerows=\"");
        push_decimal(out, (cell.rowspan - 1) as u64);
        push_str(out, "\"");
    }
    assert(out@ =~= spanned + (if cell.rowspan > 1 {
        " morerows=\""@ + decimal((cell.rowspan - 1) as nat) + "\""@
    } else {
        seq![]
    }));
    push_str(out, ">");
    emit_inlines(out, &cell.content);
    push_str(out, "</entry>");
    assert(out@ =~= start + entry_text(*cell, column as int));
}

/// Marks the columns a cell at `column` spans as covered for `rows` more rows.
fn mark_columns(occupied: &mut Vec<u32>, column: usize, span: u32, rows: u32)
    ensures
        final(occupied)@ == mark_span(old(occupied)@, column as int, span as int, rows),
{
    let ghost before = occupied@;
    let columns = occupied.len();
    let mut c: usize = 0;
    while c < span as usize && column < columns && c < columns - column
        invariant
            occupied@.len() == columns,
            before.len() == columns,
            c <= span,
            column < columns ==> column + c <= columns,
            occupied@ == Seq::new(
                columns as nat,
                |j: int|
                    if column <= j < column + c {
                        rows
                    } else {
                        before[j]
                    },
            ),
        decreases span as usize - c,
    {
        occupied.set(column + c, rows);
        assert(occupied@ =~= Seq::new(
            columns as nat,
            |j: int|
                if column <= j < column + c + 1 {
                    rows
                } else {
                    before[j]
                },
        ));
        c += 1;
    }
    assert(occupied@ =~= mark_span(before, column as int, span as int, rows));
}

/// Takes one row off every span still running.
fn step_down_columns(occupied: &mut Vec<u32>)
    ensures
        final(occupied)@ == step_down(old(occupied)@),
{
    let ghost ended = occupied@;
    let columns = occupied.len();
    let mut k: usize = 0;
    while k < columns
        invariant
            k <= columns,
            occupied@.len() == columns,
            ended.len() == columns,
            forall|j: int| 0 <= j < k ==> occupied@[j] == (if ended[j] > 0 { (ended[j] - 1) as u32 } else { 0u32 }),
            forall|j: int| k <= j < columns ==> occupied@[j] == ended[j],
        decreases columns - k,
    {
        if occupied[k] > 0 {
            let v = occupied[k] - 1;
            occupied.set(k, v);
        }
        k += 1;
    }
    assert(occupied@ =~= step_down(ended));
}

/// Writes one CALS row: each cell takes the next column that no row span
/// from above still covers; spans are written as `namest`/`nameend` and
/// `morerows`. `occupied` counts, per column, the rows a span still covers.
fn emit_cals_row(out: &mut Vec<char>, cells: &Vec<TableCell>, occupied: &mut Vec<u32>)
    ensures
        final(out)@ == old(out)@ + cals_row(cells@, old(occupied)@).0,
        final(occupied)@ == cals_row(cells@, old(occupied)@).1,
{
    let ghost occ0 = occupied@;
    push_str(out, "<row>");
    let ghost row_start = out@;
    let ghost mut written: Seq<char> = seq![];
    let mut column: usize = 0;
    let mut i: usize = 0;
    assert(row_start + written =~= row_start);
    assert(written + cals_cells(cells@, 0, 0, occ0).0 =~= cals_cells(cells@, 0, 0, occ0).0);
    while i < cells.len()
        invariant
            i <= cells.len(),
            out@ == row_start + written,
            cals_cells(cells@, 0, 0, occ0).0 == written + cals_cells(cells@, i as int, column as int, occupied@).0,
            cals_cells(cells@, 0, 0, occ0).1 == cals_cells(cells@, i as int, column as int, occupied@).1,
        decreases cells.len() - i,
    {
        let cell = &cells[i];
        let at = next_free_column(occupied, column);
        let ghost rest = cals_cells(cells@, i + 1, sat_sum(at as int, cell.colspan as int), if cell.rowspan > 1 {
            mark_span(occupied@, at as int, cell.colspan as int, cell.rowspan)
        } else {
            occupied@
        });
        emit_entry(out, cell, at);
        if cell.rowspan > 1 {
            mark_columns(occupied, at, cell.colspan, cell.rowspan);
        }
        proof {
            assert(written + (entry_text(*cell, at as int) + rest.0) =~= (written + entry_text(*cell, at as int)) + rest.0);
            written = written + entry_text(*cell, at as int);
        }
        column = sat_add(at, cell.colspan as usize);
        i += 1;
    }
    assert(written + seq![] =~= written);
    push_str(out, "</row>\n");
    step_down_columns(occupied);
}

fn emit_wrapped(out: &mut Vec<char>, tag: &str, content: &Vec<Inline>)
    ensures
        final(out)@ == old(out)@ + "<"@ + tag@ + ">"@ + docbook_inlines(content@) + "</"@ + tag@ + ">"@,
    decreases content, 1nat,
{
    push_str(out, "<");
    push_str(out, tag);
    push_str(out, ">");
    emit_inlines(out, content);
    push_str(out, "</");
    push_str(out, tag);
    push_str(out, ">");
}

fn emit_phrase(out: &mut Vec<char>, open: &str, content: &Vec<Inline>, close: &str)
    ensures
        final(out)@ == old(out)@ + open@ + docbook_inlines(content@) + close@,
    decreases content, 1nat,
{
    push_str(out, open);
    emit_inlines(out, content);
    push_str(out, close);
}

fn emit_inlines(out: &mut Vec<char>, inlines: &Vec<Inline>)
    ensures
        final(out)@ == old(out)@ + docbook_inlines(inlines@),
    decreases inlines, 0nat,
{
    let ghost start = out@;
    let mut i: usize = 0;
    while i < inlines.len()
        invariant
            i <= inlines.len(),
            out@ == start + docbook_inlines(inlines@.subrange(0, i as int)),
        decreases inlines.len() - i,
    {
        assert(decreases_to!(inlines => inlines@[i as int]));
        emit_inline(out, &inlines[i]);
        proof {
            assert(inlines@.subrange(0, i + 1).drop_last() =~= inlines@.subrange(0, i as int));
            assert(out@ =~= start + docbook_inlines(inlines@.subrange(0, i + 1)));
        }
        i += 1;
    }
    assert(inlines@.subrange(0, inlines@.len() as int) =~= inlines@);
}

fn emit_inline(out: &mut Vec<char>, inline: &Inline)
    ensures
        final(out)@ == old(out)@ + docbook_inline(*inline),
    decreases inline, 2nat,
{
    let ghost start = out@;
    match inline {
        Inline::Text(t) => push_escaped(out, t),
        Inline::Bold(c) => emit_phrase(out, "<emphasis role=\"strong\">", c, "</emphasis>"),
        Inline::Italic(c) => emit_wrapped(out, "emphasis", c),
        Inline::BoldItalic(c) => emit_phrase(out, "<phrase role=\"bold-italic\">", c, "</phrase>"),
        Inline::Strikethrough(c) => emit_phrase(
            out,
            "<phrase role=\"strikethrough\">",
            c,
            "</phrase>",
        ),
        Inline::Superscript(c) => emit_wrapped(out, "superscript", c),
        Inline::Subscript(c) => emit_wrapped(out, "subscript", c),
        Inline::InlineCode(code) => {
            push_str(out, "<code>");
            push_escaped(out, code);
            push_str(out, "</code>");
        },
        Inline::Link { url, text, title } => {
            push_str(out, "<link xlink:href=\"");
            push_escaped_attr(out, url);
            push_title(out, title);
            push_str(out, "\">");
            emit_inlines(out, text);
            push_str(out, "</link>");
        },
        Inline::Image { url, alt, title, link } => {
            if let Some(l) = link {
                push_str(out, "<link xlink:href=\"");
                push_escaped_attr(out, l);
                push_str(out, "\">");
            }
            assert(out@ =~= start + match link {
                Some(l) => "<link xlink:href=\""@ + db_attr(l@) + "\">"@,
                None => seq![],
            });
            push_str(out, "<inlinemediaobject><imageobject><imagedata fileref=\"");
            push_escaped_attr(out, url);
            push_title(out, title);
            push_str(out, "\"/></imageobject><textobject><phrase>");
            let mut alt_text: Vec<char> = Vec::new();
            plain_text(&mut alt_text, alt);
            assert(alt_text@ =~= plain_inlines(alt@));
            push_escaped(out, &string_of(&alt_text));
            push_str(out, "</phrase></textobject></inlinemediaobject>");
            let ghost img = out@;
            if link.is_some() {
                push_str(out, "</link>");
            }
            assert(out@ =~= img + (if link is Some {
                "</link>"@
            } else {
                seq![]
            }));
        },
        Inline::HardLineBreak => push_str(out, "<phrase role=\"morph-hard-break\"/>"),
        Inline::SoftLineBreak => push_str(out, "<phrase role=\"morph-soft-break\"/>"),
        Inline::RawInline { format, content } => {
            push_str(out, "<phrase role=\"morph-raw\"");
            push_optional_attr(out, "remap", format);
            push_str(out, ">");
            push_escaped(out, content);
            push_str(out, "</phrase>");
        },
    }
    assert(out@ =~= start + docbook_inline(*inline));
}

} // verus!
