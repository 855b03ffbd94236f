//! Strict HTML writer.
use vstd::prelude::*;

use crate::ast::{Block, ColumnAlignment, DescriptionItem, Document, Inline, ListItem, TableCell};
use crate::error::EmitError;
use crate::format::Emitter;
use crate::formats::common::{ends_with_single_newline, finish_output, finished};
use crate::formats::strict_xml::{escape_xml, escape_xml_attr, xml_escape_spec};
use crate::text::{decimal, push_all, push_decimal, push_str, push_string, string_of};

verus! {

pub struct HtmlEmitter;

impl Emitter for HtmlEmitter {
    fn emit(&self, doc: &Document) -> (r: Result<String, EmitError>)
        ensures
            r matches Ok(s) && s@ == finished(html_blocks(doc.children@)),
            r matches Ok(s) && ends_with_single_newline(s@),
    {
        Ok(emit_html(&doc.children))
    }
}

// ---------------------------------------------------------------------------
// The text written
// ---------------------------------------------------------------------------

/// Text content, escaped.
pub open spec fn html_text(s: Seq<char>) -> Seq<char> {
    xml_escape_spec(s, false)
}

/// An attribute value, escaped.
pub open spec fn html_attr(s: Seq<char>) -> Seq<char> {
    xml_escape_spec(s, true)
}

/// `content` inside the element `tag`.
pub open spec fn element(tag: Seq<char>, content: Seq<char>) -> Seq<char> {
    "<"@ + tag + ">"@ + content + "</"@ + tag + ">"@
}

/// The plain text of an inline node: text, code and raw content kept,
/// markup dropped, line breaks as spaces.
pub open spec fn plain_inline(x: Inline) -> Seq<char>
    decreases x,
{
    match x {
        Inline::Text(t) => t@,
        Inline::InlineCode(t) => t@,
        Inline::Bold(c) => plain_inlines(c@),
        Inline::Italic(c) => plain_inlines(c@),
        Inline::BoldItalic(c) => plain_inlines(c@),
        Inline::Strikethrough(c) => plain_inlines(c@),
        Inline::Superscript(c) => plain_inlines(c@),
        Inline::Subscript(c) => plain_inlines(c@),
        Inline::Link { text, .. } => plain_inlines(text@),
        Inline::Image { alt, .. } => plain_inlines(alt@),
        Inline::HardLineBreak => seq![' '],
        Inline::SoftLineBreak => seq![' '],
        Inline::RawInline { content, .. } => content@,
    }
}

pub open spec fn plain_inlines(s: Seq<Inline>) -> Seq<char>
    decreases s,
{
    if s.len() == 0 {
        seq![]
    } else {
        plain_inlines(s.drop_last()) + plain_inline(s.last())
    }
}

/// ` name="value"` where the value is given, nothing where it is not.
pub open spec fn optional_attr(name: Seq<char>, value: Option<String>) -> Seq<char> {
    match value {
        Some(v) => " "@ + name + "=\""@ + html_attr(v@) + "\""@,
        None => seq![],
    }
}

/// The escaped raw format, or nothing.
pub open spec fn raw_format(format: Option<String>) -> Seq<char> {
    match format {
        Some(f) => html_attr(f@),
        None => seq![],
    }
}

/// How an inline node is written.
pub open spec fn html_inline(x: Inline) -> Seq<char>
    decreases x,
{
    match x {
        Inline::Text(t) => html_text(t@),
        Inline::Bold(c) => element("strong"@, html_inlines(c@)),
        Inline::Italic(c) => element("em"@, html_inlines(c@)),
        Inline::BoldItalic(c) => "<strong><em>"@ + html_inlines(c@) + "</em></strong>"@,
        Inline::Strikethrough(c) => element("del"@, html_inlines(c@)),
        Inline::Superscript(c) => element("sup"@, html_inlines(c@)),
        Inline::Subscript(c) => element("sub"@, html_inlines(c@)),
        Inline::InlineCode(code) => "<code>"@ + html_text(code@) + "</code>"@,
        Inline::Link { url, text, title } => "<a href=\""@ + html_attr(url@) + "\""@ + optional_attr(
            "title"@,
            title,
        ) + ">"@ + html_inlines(text@) + "</a>"@,
        Inline::Image { url, alt, title, link } => (match link {
            Some(l) => "<a href=\""@ + html_attr(l@) + "\">"@,
            None => seq![],
        }) + "<img src=\""@ + html_attr(url@) + "\" alt=\""@ + html_attr(plain_inlines(alt@)) + "\""@
            + optional_attr("title"@, title) + ">"@ + (if link is Some {
            "</a>"@
        } else {
            seq![]
        }),
        Inline::HardLineBreak => "<br>"@,
        Inline::SoftLineBreak => seq!['\n'],
        Inline::RawInline { format, content } => "<span data-morph-raw-format=\""@ + raw_format(format)
            + "\">"@ + html_text(content@) + "</span>"@,
    }
}

pub open spec fn html_inlines(s: Seq<Inline>) -> Seq<char>
    decreases s,
{
    if s.len() == 0 {
        seq![]
    } else {
        html_inlines(s.drop_last()) + html_inline(s.last())
    }
}

/// The `align` attribute of column `index`, if its alignment is not the
/// default.
pub open spec fn align_attr(alignments: Seq<ColumnAlignment>, index: int) -> Seq<char> {
    if 0 <= index < alignments.len() {
        match alignments[index] {
            ColumnAlignment::Left => " align=\"left\""@,
            ColumnAlignment::Center => " align=\"center\""@,
            ColumnAlignment::Right => " align=\"right\""@,
            ColumnAlignment::Default => seq![],
        }
    } else {
        seq![]
    }
}

/// A span attribute, written only for a span over one.
pub open spec fn span_attr(name: Seq<char>, n: u32) -> Seq<char> {
    if n > 1 {
        " "@ + name + "=\""@ + decimal(n as nat) + "\""@
    } else {
        seq![]
    }
}

/// How a table cell in column `index` is written.
pub open spec fn html_cell(
    tag: Seq<char>,
    cell: TableCell,
    alignments: Seq<ColumnAlignment>,
    index: int,
) -> Seq<char> {
    "<"@ + tag + span_attr("colspan"@, cell.colspan) + span_attr("rowspan"@, cell.rowspan)
        + align_attr(alignments, index) + ">"@ + html_inlines(cell.content@) + "</"@ + tag + ">"@
}

pub open spec fn html_cells(tag: Seq<char>, cells: Seq<TableCell>, alignments: Seq<ColumnAlignment>) -> Seq<
    char,
>
    decreases cells.len(),
{
    if cells.len() == 0 {
        seq![]
    } else {
        html_cells(tag, cells.drop_last(), alignments) + html_cell(
            tag,
            cells.last(),
            alignments,
            cells.len() - 1,
        )
    }
}

pub open spec fn html_rows(rows: Seq<Vec<TableCell>>, alignments: Seq<ColumnAlignment>) -> Seq<char>
    decreases rows.len(),
{
    if rows.len() == 0 {
        seq![]
    } else {
        html_rows(rows.drop_last(), alignments) + "<tr>"@ + html_cells("td"@, rows.last()@, alignments)
            + "</tr>\n"@
    }
}

/// The `start` attribute of an ordered list that does not start at 1.
pub open spec fn start_attr(start: Option<u32>) -> Seq<char> {
    match start {
        Some(s) => if s != 1 {
            " start=\""@ + decimal(s as nat) + "\""@
        } else {
            seq![]
        },
        None => seq![],
    }
}

/// How a block is written.
pub open spec fn html_block(b: Block) -> Seq<char>
    decreases b,
{
    match b {
        Block::Heading { level, content } => "<h"@ + decimal(level as nat) + ">"@ + html_inlines(
            content@,
        ) + "</h"@ + decimal(level as nat) + ">\n"@,
        Block::Paragraph { content } => if content@.len() > 0 {
            "<p>"@ + html_inlines(content@) + "</p>\n"@
        } else {
            seq![]
        },
        Block::CodeBlock { language, content } => "<pre><code"@ + (match language {
            Some(l) => " class=\"language-"@ + html_attr(l@) + "\""@,
            None => seq![],
        }) + ">"@ + html_text(content@) + "</code></pre>\n"@,
        Block::BlockQuote { children } => "<blockquote>\n"@ + html_blocks(children@)
            + "</blockquote>\n"@,
        Block::UnorderedList { items } => "<"@ + "ul"@ + start_attr(None) + ">\n"@ + html_items(items@)
            + "</"@ + "ul"@ + ">\n"@,
        Block::OrderedList { start, items } => "<"@ + "ol"@ + start_attr(Some(start)) + ">\n"@
            + html_items(items@) + "</"@ + "ol"@ + ">\n"@,
        Block::DescriptionList { items } => "<dl>\n"@ + html_descriptions(items@) + "</dl>\n"@,
        Block::Table { headers, alignments, rows } => "<table>\n<thead><tr>"@ + html_cells(
            "th"@,
            headers@,
            alignments@,
        ) + "</tr></thead>\n<tbody>\n"@ + html_rows(rows@, alignments@) + "</tbody>\n</table>\n"@,
        Block::HorizontalRule => "<hr>\n"@,
        Block::RawBlock { format, content } => "<pre data-morph-raw-format=\""@ + raw_format(format)
            + "\">"@ + html_text(content@) + "</pre>\n"@,
    }
}

pub open spec fn html_blocks(s: Seq<Block>) -> Seq<char>
    decreases s,
{
    if s.len() == 0 {
        seq![]
    } else {
        html_blocks(s.drop_last()) + html_block(s.last())
    }
}

pub open spec fn html_items(s: Seq<ListItem>) -> Seq<char>
    decreases s,
{
    if s.len() == 0 {
        seq![]
    } else {
        html_items(s.drop_last()) + "<li>\n"@ + html_blocks(s.last().content@) + "</li>\n"@
    }
}

pub open spec fn html_definitions(s: Seq<Vec<Block>>) -> Seq<char>
    decreases s,
{
    if s.len() == 0 {
        seq![]
    } else {
        html_definitions(s.drop_last()) + "<dd>\n"@ + html_blocks(s.last()@) + "</dd>\n"@
    }
}

pub open spec fn html_descriptions(s: Seq<DescriptionItem>) -> Seq<char>
    decreases s,
{
    if s.len() == 0 {
        seq![]
    } else {
        html_descriptions(s.drop_last()) + "<dt>"@ + html_inlines(s.last().term@) + "</dt>\n"@
            + html_definitions(s.last().definitions@)
    }
}

// ---------------------------------------------------------------------------
// Writing
// ---------------------------------------------------------------------------

/// Writes blocks as strict HTML; the text ends with exactly one newline.
pub fn emit_html(blocks: &Vec<Block>) -> (s: String)
    ensures
        s@ == finished(html_blocks(blocks@)),
        ends_with_single_newline(s@),
{
    let mut out: Vec<char> = Vec::new();
    emit_blocks(&mut out, blocks);
    assert(out@ =~= html_blocks(blocks@));
    finish_output(&out)
}

fn push_escaped(out: &mut Vec<char>, s: &String)
    ensures
        final(out)@ == old(out)@ + html_text(s@),
{
    push_all(out, &escape_xml(s));
}

fn push_escaped_attr(out: &mut Vec<char>, s: &String)
    ensures
        final(out)@ == old(out)@ + html_attr(s@),
{
    push_all(out, &escape_xml_attr(s));
}

/// Writes ` name="value"` where the value is given.
fn push_optional_attr(out: &mut Vec<char>, name: &str, value: &Option<String>)
    ensures
        final(out)@ == old(out)@ + optional_attr(name@, *value),
{
    let ghost start = out@;
    if let Some(v) = value {
        push_str(out, " ");
        push_str(out, name);
        push_str(out, "=\"");
        push_escaped_attr(out, v);
        push_str(out, "\"");
    }
    assert(out@ =~= start + optional_attr(name@, *value));
}

/// Writes the escaped raw format, if there is one.
fn push_raw_format(out: &mut Vec<char>, format: &Option<String>)
    ensures
        final(out)@ == old(out)@ + raw_format(*format),
{
    let ghost start = out@;
    match format {
        Some(f) => push_escaped_attr(out, f),
        None => {},
    }
    assert(out@ =~= start + raw_format(*format));
}

/// Writes a span attribute for a span over one.
fn push_span_attr(out: &mut Vec<char>, name: &str, n: u32)
    ensures
        final(out)@ == old(out)@ + span_attr(name@, n),
{
    let ghost start = out@;
    if n > 1 {
        push_str(out, " ");
        push_str(out, name);
        push_str(out, "=\"");
        push_decimal(out, n as u64);
        push_str(out, "\"");
    }
    assert(out@ =~= start + span_attr(name@, n));
}

/// Writes the `align` attribute of column `index`.
fn push_align_attr(out: &mut Vec<char>, alignments: &Vec<ColumnAlignment>, index: usize)
    ensures
        final(out)@ == old(out)@ + align_attr(alignments@, index as int),
{
    let ghost start = out@;
    if index < alignments.len() {
        match alignments[index] {
            ColumnAlignment::Left => push_str(out, " align=\"left\""),
            ColumnAlignment::Center => push_str(out, " align=\"center\""),
            ColumnAlignment::Right => push_str(out, " align=\"right\""),
            ColumnAlignment::Default => {},
        }
    }
    assert(out@ =~= start + align_attr(alignments@, index as int));
}

fn emit_blocks(out: &mut Vec<char>, blocks: &Vec<Block>)
    ensures
        final(out)@ == old(out)@ + html_blocks(blocks@),
    decreases blocks, 2nat,
{
    let ghost start = out@;
    let mut i: usize = 0;
    while i < blocks.len()
        invariant
            i <= blocks.len(),
            out@ == start + html_blocks(blocks@.subrange(0, i as int)),
        decreases blocks.len() - i,
    {
        assert(decreases_to!(blocks => blocks@[i as int]));
        emit_block(out, &blocks[i]);
        proof {
            assert(blocks@.subrange(0, i + 1).drop_last() =~= blocks@.subrange(0, i as int));
            assert(out@ =~= start + html_blocks(blocks@.subrange(0, i + 1)));
        }
        i += 1;
    }
    assert(blocks@.subrange(0, blocks@.len() as int) =~= blocks@);
}

fn emit_block(out: &mut Vec<char>, block: &Block)
    ensures
        final(out)@ == old(out)@ + html_block(*block),
    decreases block, 1nat,
{
    let ghost start = out@;
    match block {
        Block::Heading { level, content } => {
            push_str(out, "<h");
            push_decimal(out, *level as u64);
            push_str(out, ">");
            emit_inlines(out, content);
            push_str(out, "</h");
            push_decimal(out, *level as u64);
            push_str(out, ">\n");
        },
        Block::Paragraph { content } => {
            if content.len() > 0 {
                push_str(out, "<p>");
                emit_inlines(out, content);
                push_str(out, "</p>\n");
            }
        },
        Block::CodeBlock { language, content } => {
            push_str(out, "<pre><code");
            let ghost mid = out@;
            if let Some(lang) = language {
                push_str(out, " class=\"language-");
                push_escaped_attr(out, lang);
                push_str(out, "\"");
            }
            assert(out@ =~= mid + match language {
                Some(l) => " class=\"language-"@ + html_attr(l@) + "\""@,
                None => seq![],
            });
            push_str(out, ">");
            push_escaped(out, content);
            push_str(out, "</code></pre>\n");
            assert(out@ =~= start + html_block(*block));
        },
        Block::BlockQuote { children } => {
            push_str(out, "<blockquote>\n");
            emit_blocks(out, children);
            push_str(out, "</blockquote>\n");
        },
        Block::UnorderedList { items } => emit_list(out, "ul", items, None),
        Block::OrderedList { start, items } => emit_list(out, "ol", items, Some(*start)),
        Block::DescriptionList { items } => emit_description_list(out, items),
        Block::Table { headers, alignments, rows } => emit_table(out, headers, alignments, rows),
        Block::HorizontalRule => push_str(out, "<hr>\n"),
        Block::RawBlock { format, content } => {
            push_str(out, "<pre data-morph-raw-format=\"");
            push_raw_format(out, format);
            push_str(out, "\">");
            push_escaped(out, content);
            push_str(out, "</pre>\n");
        },
    }
    assert(out@ =~= start + html_block(*block));
}

fn emit_description_list(out: &mut Vec<char>, items: &Vec<DescriptionItem>)
    ensures
        final(out)@ == old(out)@ + "<dl>\n"@ + html_descriptions(items@) + "</dl>\n"@,
    decreases items, 0nat,
{
    push_str(out, "<dl>\n");
    let ghost start = out@;
    let mut k: usize = 0;
    while k < items.len()
        invariant
            k <= items.len(),
            out@ == start + html_descriptions(items@.subrange(0, k as int)),
        decreases items.len() - k,
    {
        let item = &items[k];
        push_str(out, "<dt>");
        emit_inlines(out, &item.term);
        push_str(out, "</dt>\n");
        let ghost mid = out@;
        let mut d: usize = 0;
        while d < item.definitions.len()
            invariant
                d <= item.definitions.len(),
                k < items@.len(),
                item == &items@[k as int],
                out@ == mid + html_definitions(item.definitions@.subrange(0, d as int)),
            decreases item.definitions.len() - d,
        {
            assert(decreases_to!(items => items@[k as int].definitions@[d as int])) by {
                assert(decreases_to!(items => items@[k as int]));
                assert(decreases_to!(items@[k as int] => items@[k as int].definitions));
                assert(decreases_to!(items@[k as int].definitions => items@[k as int].definitions@[d as int]));
            }
            push_str(out, "<dd>\n");
            emit_blocks(out, &item.definitions[d]);
            push_str(out, "</dd>\n");
            proof {
                assert(item.definitions@.subrange(0, d + 1).drop_last() =~= item.definitions@.subrange(0, d as int));
                assert(out@ =~= mid + html_definitions(item.definitions@.subrange(0, d + 1)));
            }
            d += 1;
        }
        proof {
            assert(item.definitions@.subrange(0, item.definitions@.len() as int) =~= item.definitions@);
            assert(items@.subrange(0, k + 1).drop_last() =~= items@.subrange(0, k as int));
            assert(out@ =~= start + html_descriptions(items@.subrange(0, k + 1)));
        }
        k += 1;
    }
    assert(items@.subrange(0, items@.len() as int) =~= items@);
    push_str(out, "</dl>\n");
}

fn emit_list(out: &mut Vec<char>, tag: &str, items: &Vec<ListItem>, start: Option<u32>)
    ensures
        final(out)@ == old(out)@ + "<"@ + tag@ + start_attr(start) + ">\n"@ + html_items(items@) + "</"@
            + tag@ + ">\n"@,
    decreases items, 0nat,
{
    let ghost begin = out@;
    push_str(out, "<");
    push_str(out, tag);
    if let Some(s) = start {
        if s != 1 {
            push_str(out, " start=\"");
            push_decimal(out, s as u64);
            push_str(out, "\"");
        }
    }
    push_str(out, ">\n");
    assert(out@ =~= begin + "<"@ + tag@ + start_attr(start) + ">\n"@);
    let ghost head = out@;
    let mut i: usize = 0;
    while i < items.len()
        invariant
            i <= items.len(),
            out@ == head + html_items(items@.subrange(0, i as int)),
        decreases items.len() - i,
    {
        assert(decreases_to!(items => items@[i as int]));
        assert(decreases_to!(items@[i as int] => items@[i as int].content));
        push_str(out, "<li>\n");
        emit_blocks(out, &items[i].content);
        push_str(out, "</li>\n");
        proof {
            assert(items@.subrange(0, i + 1).drop_last() =~= items@.subrange(0, i as int));
            assert(out@ =~= head + html_items(items@.subrange(0, i + 1)));
        }
        i += 1;
    }
    assert(items@.subrange(0, items@.len() as int) =~= items@);
    push_str(out, "</");
    push_str(out, tag);
    push_str(out, ">\n");
}

fn emit_table(
    out: &mut Vec<char>,
    headers: &Vec<TableCell>,
    alignments: &Vec<ColumnAlignment>,
    rows: &Vec<Vec<TableCell>>,
)
    ensures
        final(out)@ == old(out)@ + "<table>\n<thead><tr>"@ + html_cells("th"@, headers@, alignments@)
            + "</tr></thead>\n<tbody>\n"@ + html_rows(rows@, alignments@) + "</tbody>\n</table>\n"@,
{
    push_str(out, "<table>\n<thead><tr>");
    let ghost head = out@;
    emit_cells(out, "th", headers, alignments);
    push_str(out, "</tr></thead>\n<tbody>\n");
    let ghost body = out@;
    let mut r: usize = 0;
    while r < rows.len()
        invariant
            r <= rows.len(),
            out@ == body + html_rows(rows@.subrange(0, r as int), alignments@),
        decreases rows.len() - r,
    {
        push_str(out, "<tr>");
        emit_cells(out, "td", &rows[r], alignments);
        push_str(out, "</tr>\n");
        proof {
            assert(rows@.subrange(0, r + 1).drop_last() =~= rows@.subrange(0, r as int));
            assert(out@ =~= body + html_rows(rows@.subrange(0, r + 1), alignments@));
        }
        r += 1;
    }
    assert(rows@.subrange(0, rows@.len() as int) =~= rows@);
    push_str(out, "</tbody>\n</table>\n");
}

fn emit_cells(out: &mut Vec<char>, tag: &str, cells: &Vec<TableCell>, alignments: &Vec<ColumnAlignment>)
    ensures
        final(out)@ == old(out)@ + html_cells(tag@, cells@, alignments@),
{
    let ghost start = out@;
    let mut c: usize = 0;
    while c < cells.len()
        invariant
            c <= cells.len(),
            out@ == start + html_cells(tag@, cells@.subrange(0, c as int), alignments@),
        decreases cells.len() - c,
    {
        emit_cell(out, tag, &cells[c], alignments, c);
        proof {
            assert(cells@.subrange(0, c + 1).drop_last() =~= cells@.subrange(0, c as int));
            assert(out@ =~= start + html_cells(tag@, cells@.subrange(0, c + 1), alignments@));
        }
        c += 1;
    }
    assert(cells@.subrange(0, cells@.len() as int) =~= cells@);
}

fn emit_cell(out: &mut Vec<char>, tag: &str, cell: &TableCell, alignments: &Vec<ColumnAlignment>, index: usize)
    ensures
        final(out)@ == old(out)@ + html_cell(tag@, *cell, alignments@, index as int),
{
    let ghost start = out@;
    push_str(out, "<");
    push_str(out, tag);
    push_span_attr(out, "colspan", cell.colspan);
    push_span_attr(out, "rowspan", cell.rowspan);
    push_align_attr(out, alignments, index);
    push_str(out, ">");
    emit_inlines(out, &cell.content);
    push_str(out, "</");
    push_str(out, tag);
    push_str(out, ">");
    assert(out@ =~= start + html_cell(tag@, *cell, alignments@, index as int));
}

fn emit_wrapped(out: &mut Vec<char>, tag: &str, content: &Vec<Inline>)
    ensures
        final(out)@ == old(out)@ + element(tag@, html_inlines(content@)),
    decreases content, 1nat,
{
    let ghost start = out@;
    push_str(out, "<");
    push_str(out, tag);
    push_str(out, ">");
    emit_inlines(out, content);
    push_str(out, "</");
    push_str(out, tag);
    push_str(out, ">");
    assert(out@ =~= start + element(tag@, html_inlines(content@)));
}

fn emit_inlines(out: &mut Vec<char>, inlines: &Vec<Inline>)
    ensures
        final(out)@ == old(out)@ + html_inlines(inlines@),
    decreases inlines, 0nat,
{
    let ghost start = out@;
    let mut i: usize = 0;
    while i < inlines.len()
        invariant
            i <= inlines.len(),
            out@ == start + html_inlines(inlines@.subrange(0, i as int)),
        decreases inlines.len() - i,
    {
        assert(decreases_to!(inlines => inlines@[i as int]));
        emit_inline(out, &inlines[i]);
        proof {
            assert(inlines@.subrange(0, i + 1).drop_last() =~= inlines@.subrange(0, i as int));
            assert(out@ =~= start + html_inlines(inlines@.subrange(0, i + 1)));
        }
        i += 1;
    }
    assert(inlines@.subrange(0, inlines@.len() as int) =~= inlines@);
}

fn emit_inline(out: &mut Vec<char>, inline: &Inline)
    ensures
        final(out)@ == old(out)@ + html_inline(*inline),
    decreases inline, 2nat,
{
    let ghost start = out@;
    match inline {
        Inline::Text(t) => push_escaped(out, t),
        Inline::Bold(c) => emit_wrapped(out, "strong", c),
        Inline::Italic(c) => emit_wrapped(out, "em", c),
        Inline::BoldItalic(c) => {
            push_str(out, "<strong><em>");
            emit_inlines(out, c);
            push_str(out, "</em></strong>");
        },
        Inline::Strikethrough(c) => emit_wrapped(out, "del", c),
        Inline::Superscript(c) => emit_wrapped(out, "sup", c),
        Inline::Subscript(c) => emit_wrapped(out, "sub", c),
        Inline::InlineCode(code) => {
            push_str(out, "<code>");
            push_escaped(out, code);
            push_str(out, "</code>");
        },
        Inline::Link { url, text, title } => {
            push_str(out, "<a href=\"");
            push_escaped_attr(out, url);
            push_str(out, "\"");
            push_optional_attr(out, "title", title);
            push_str(out, ">");
            emit_inlines(out, text);
            push_str(out, "</a>");
        },
        Inline::Image { url, alt, title, link } => {
            if let Some(l) = link {
                push_str(out, "<a href=\"");
                push_escaped_attr(out, l);
                push_str(out, "\">");
            }
            assert(out@ =~= start + match link {
                Some(l) => "<a href=\""@ + html_attr(l@) + "\">"@,
                None => seq![],
            });
            let ghost opened = out@;
            push_str(out, "<img src=\"");
            push_escaped_attr(out, url);
            push_str(out, "\" alt=\"");
            let mut alt_text: Vec<char> = Vec::new();
            plain_text(&mut alt_text, alt);
            assert(alt_text@ =~= plain_inlines(alt@));
            push_escaped_attr(out, &string_of(&alt_text));
            push_str(out, "\"");
            push_optional_attr(out, "title", title);
            push_str(out, ">");
            let ghost img = out@;
            if link.is_some() {
                push_str(out, "</a>");
            }
            assert(out@ =~= img + (if link is Some {
                "</a>"@
            } else {
                seq![]
            }));
        },
        Inline::HardLineBreak => push_str(out, "<br>"),
        Inline::SoftLineBreak => out.push('\n'),
        Inline::RawInline { format, content } => {
            push_str(out, "<span data-morph-raw-format=\"");
            push_raw_format(out, format);
            push_str(out, "\">");
            push_escaped(out, content);
            push_str(out, "</span>");
        },
    }
    assert(out@ =~= start + html_inline(*inline));
}

/// The plain text of inline content: text, code and raw content kept, markup
/// dropped, line breaks as spaces.
pub(crate) fn plain_text(out: &mut Vec<char>, inlines: &Vec<Inline>)
    ensures
        final(out)@ == old(out)@ + plain_inlines(inlines@),
    decreases inlines, 0nat,
{
    let ghost start = out@;
    let mut i: usize = 0;
    while i < inlines.len()
        invariant
            i <= inlines.len(),
            out@ == start + plain_inlines(inlines@.subrange(0, i as int)),
        decreases inlines.len() - i,
    {
        assert(decreases_to!(inlines => inlines@[i as int]));
        plain_inline_text(out, &inlines[i]);
        proof {
            assert(inlines@.subrange(0, i + 1).drop_last() =~= inlines@.subrange(0, i as int));
            assert(out@ =~= start + plain_inlines(inlines@.subrange(0, i + 1)));
        }
        i += 1;
    }
    assert(inlines@.subrange(0, inlines@.len() as int) =~= inlines@);
}

fn plain_inline_text(out: &mut Vec<char>, inline: &Inline)
    ensures
        final(out)@ == old(out)@ + plain_inline(*inline),
    decreases inline, 1nat,
{
    match inline {
        Inline::Text(t) => push_string(out, t),
        Inline::InlineCode(t) => push_string(out, t),
        Inline::Bold(c) => plain_text(out, c),
        Inline::Italic(c) => plain_text(out, c),
        Inline::BoldItalic(c) => plain_text(out, c),
        Inline::Strikethrough(c) => plain_text(out, c),
        Inline::Superscript(c) => plain_text(out, c),
        Inline::Subscript(c) => plain_text(out, c),
        Inline::Link { text, .. } => plain_text(out, text),
        Inline::Image { alt, .. } => plain_text(out, alt),
        Inline::HardLineBreak => out.push(' '),
        Inline::SoftLineBreak => out.push(' '),
        Inline::RawInline { content, .. } => push_string(out, content),
    }
}

} // verus!
