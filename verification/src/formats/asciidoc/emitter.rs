//! AsciiDoc writer.
use vstd::prelude::*;

use crate::ast::{Block, ColumnAlignment, DescriptionItem, Document, Inline, ListItem, TableCell};
use crate::error::EmitError;
use crate::format::Emitter;
use crate::formats::common::{has_mark, lemma_prefix_mark, plain_char, ends_with_single_newline, ensure_blank_line, finish_output, finished, with_blank_line};
use crate::std_calls::{alphanumeric, is_alphanumeric};
use crate::text::{chars_of, chars_of_string, contains_char, contains_lit, digit, eq, first_is, last_is, push_all, push_decimal, push_str, push_string, repeat, replace_char, replace_lit, skip, starts_with_lit, trim_end_char};
use crate::text::{contains_spec, decimal, has_prefix, repeat_spec, replace_char_spec, replace_spec, trim_end_char_spec};

verus! {

// ---------------------------------------------------------------------------
// What the writer produces
// ---------------------------------------------------------------------------

/// `n + 1`, held in a `usize`.
pub open spec fn deeper(n: int) -> int {
    if n < usize::MAX {
        n + 1
    } else {
        n
    }
}

/// Text after the typographic replacements: `...` to an ellipsis, `---` to an
/// em dash, `--` to an en dash, `<<`/`>>` to guillemets, and non-breaking
/// spaces to `{nbsp}`.
pub open spec fn typography(t: Seq<char>) -> Seq<char> {
    let t = replace_spec(t, ". . ."@, "..."@);
    let t = replace_spec(t, "..."@, "\u{2026}"@);
    let t = replace_spec(t, "---"@, "\u{2014}"@);
    let t = replace_spec(t, "--"@, "\u{2013}"@);
    let t = replace_spec(t, "<< "@, "\u{ab}\u{a0}"@);
    let t = replace_spec(t, " >>"@, "\u{a0}\u{bb}"@);
    let t = replace_spec(t, "<<"@, "\u{ab}"@);
    let t = replace_spec(t, ">>"@, "\u{bb}"@);
    replace_char_spec(t, '\u{a0}', "{nbsp}"@)
}

/// Replacing a pattern that holds a character that is not plain leaves text
/// of plain characters as it is.
proof fn lemma_replace_plain(s: Seq<char>, f: Seq<char>, t: Seq<char>, k: int)
    requires
        0 <= k < f.len(),
        !plain_char(f[k]),
        forall|i: int| 0 <= i < s.len() ==> plain_char(#[trigger] s[i]),
    ensures
        replace_spec(s, f, t) == s,
    decreases s.len(),
{
    if s.len() > 0 {
        lemma_prefix_mark(s, f, k);
        if has_mark(s) {
            let j = choose|j: int| 0 <= j < s.len() && !plain_char(#[trigger] s[j]);
            assert(plain_char(s[j]));
        }
        let rest = s.skip(1);
        assert forall|i: int| 0 <= i < rest.len() implies plain_char(#[trigger] rest[i]) by {
            assert(rest[i] == s[i + 1]);
        }
        lemma_replace_plain(rest, f, t, k);
        assert(seq![s[0]] + rest =~= s);
    }
}

/// Text of plain characters holds no `c` that is not plain to replace.
proof fn lemma_replace_char_plain(s: Seq<char>, c: char, t: Seq<char>)
    requires
        !plain_char(c),
        forall|i: int| 0 <= i < s.len() ==> plain_char(#[trigger] s[i]),
    ensures
        replace_char_spec(s, c, t) == s,
    decreases s.len(),
{
    if s.len() > 0 {
        lemma_replace_char_plain(s.drop_last(), c, t);
        assert(plain_char(s.last()));
        assert(s.drop_last().push(s.last()) =~= s);
    }
}

/// Text of plain characters has no typography to replace.
pub proof fn lemma_typography_plain(t: Seq<char>)
    requires
        forall|i: int| 0 <= i < t.len() ==> plain_char(#[trigger] t[i]),
    ensures
        typography(t) == t,
{
    reveal_strlit(". . .");
    reveal_strlit("...");
    reveal_strlit("---");
    reveal_strlit("--");
    reveal_strlit("<< ");
    reveal_strlit(" >>");
    reveal_strlit("<<");
    reveal_strlit(">>");
    lemma_replace_plain(t, ". . ."@, "..."@, 0);
    lemma_replace_plain(t, "..."@, "\u{2026}"@, 0);
    lemma_replace_plain(t, "---"@, "\u{2014}"@, 0);
    lemma_replace_plain(t, "--"@, "\u{2013}"@, 0);
    lemma_replace_plain(t, "<< "@, "\u{ab}\u{a0}"@, 0);
    lemma_replace_plain(t, " >>"@, "\u{a0}\u{bb}"@, 1);
    lemma_replace_plain(t, "<<"@, "\u{ab}"@, 0);
    lemma_replace_plain(t, ">>"@, "\u{bb}"@, 0);
    lemma_replace_char_plain(t, '\u{a0}', "{nbsp}"@);
}

/// The text of inlines without markup; line breaks become spaces.
pub open spec fn plain_text(s: Seq<Inline>) -> Seq<char>
    decreases s,
{
    if s.len() == 0 {
        seq![]
    } else {
        plain_text(s.drop_last()) + plain_inline(s.last())
    }
}

pub open spec fn plain_inline(x: Inline) -> Seq<char>
    decreases x,
{
    match x {
        Inline::Text(t) => t@,
        Inline::Bold(c) => plain_text(c@),
        Inline::Italic(c) => plain_text(c@),
        Inline::BoldItalic(c) => plain_text(c@),
        Inline::Strikethrough(c) => plain_text(c@),
        Inline::Superscript(c) => plain_text(c@),
        Inline::Subscript(c) => plain_text(c@),
        Inline::InlineCode(code) => code@,
        Inline::Link { text, .. } => plain_text(text@),
        Inline::SoftLineBreak => seq![' '],
        Inline::HardLineBreak => seq![' '],
        _ => seq![],
    }
}

/// The index of the first `}` in `s` at or after `j`, or the length of `s`.
pub open spec fn close_brace_from(s: Seq<char>, j: int) -> int
    decreases s.len() - j,
{
    if j < 0 || j >= s.len() {
        s.len() as int
    } else if s[j] == '}' {
        j
    } else {
        close_brace_from(s, j + 1)
    }
}

/// Each character of `s` in `[a, b)` may stand in an attribute name.
pub open spec fn name_chars(s: Seq<char>, a: int, b: int) -> bool {
    forall|k: int| a <= k < b ==> (alphanumeric(#[trigger] s[k]) || s[k] == '-' || s[k] == '_')
}

/// Whether `s` holds, from `i` on, an attribute reference `{name}`: each `{`
/// is closed by the next `}`, and the scan goes on after that `}`.
pub open spec fn attribute_reference_from(s: Seq<char>, i: int) -> bool
    decreases s.len() - i,
{
    if i < 0 || i >= s.len() {
        false
    } else if s[i] != '{' {
        attribute_reference_from(s, i + 1)
    } else {
        let b = close_brace_from(s, i + 1);
        if b >= s.len() || b <= i {
            false
        } else if b > i + 1 && name_chars(s, i + 1, b) {
            true
        } else {
            attribute_reference_from(s, b + 1)
        }
    }
}

/// Inline code at `idx` among `sibs` is followed by text starting with a
/// letter or digit.
pub open spec fn code_adjacent(idx: int, sibs: Seq<Inline>) -> bool {
    &&& 0 <= idx
    &&& idx + 1 < sibs.len()
    &&& match sibs[idx + 1] {
        Inline::Text(t) => t@.len() > 0 && alphanumeric(t@[0]),
        _ => false,
    }
}

/// Inline code `code` at `idx` among `sibs`.
pub open spec fn inline_code_text(code: Seq<char>, idx: int, sibs: Seq<Inline>) -> Seq<char> {
    if contains_spec(code, "++"@) {
        "`pass:c["@ + code + "]`"@
    } else if contains_spec(code, "..."@) || contains_spec(code, "->"@) || attribute_reference_from(
        code,
        0,
    ) {
        "`+"@ + code + "+`"@
    } else if code_adjacent(idx, sibs) {
        "``"@ + code + "``"@
    } else {
        "`"@ + code + "`"@
    }
}

/// A link whose text is its address, up to a trailing slash, is written bare.
pub open spec fn bare_link(url: Seq<char>, text: Seq<char>) -> bool {
    text == url || text == trim_end_char_spec(url, '/') || url == trim_end_char_spec(text, '/')
}

pub open spec fn relative_url(url: Seq<char>) -> bool {
    !has_prefix(url, "http://"@) && !has_prefix(url, "https://"@) && !has_prefix(url, "ftp://"@)
}

/// An image with address `url`, alternative text `alt` and an optional link.
pub open spec fn image_text(url: Seq<char>, alt: Seq<char>, link: Option<String>) -> Seq<char> {
    "image:"@ + url + seq!['['] + (if alt.contains(',') {
        seq!['"'] + alt + seq!['"']
    } else {
        alt
    }) + (match link {
        Some(l) => ",link="@ + l@,
        None => seq![],
    }) + seq![']']
}

/// The inlines `s` (a prefix of `all`) written after `prev`.
pub open spec fn adoc_inlines(prev: Seq<char>, s: Seq<Inline>, all: Seq<Inline>) -> Seq<char>
    decreases s,
{
    if s.len() == 0 {
        prev
    } else {
        adoc_inline(adoc_inlines(prev, s.drop_last(), all), s.last(), s.len() - 1, all)
    }
}

/// Inline `x`, at `idx` among `all`, written after `prev`; a hard break first
/// drops the spaces that end `prev`.
pub open spec fn adoc_inline(prev: Seq<char>, x: Inline, idx: int, all: Seq<Inline>) -> Seq<char>
    decreases x,
{
    match x {
        Inline::Text(t) => prev + typography(t@),
        Inline::Bold(c) => adoc_inlines(prev + "*"@, c@, c@) + "*"@,
        Inline::Italic(c) => adoc_inlines(prev + "_"@, c@, c@) + "_"@,
        Inline::BoldItalic(c) => adoc_inlines(prev + "*_"@, c@, c@) + "_*"@,
        Inline::Strikethrough(c) => adoc_inlines(prev + "[line-through]#"@, c@, c@) + "#"@,
        Inline::Superscript(c) => adoc_inlines(prev + "^"@, c@, c@) + "^"@,
        Inline::Subscript(c) => adoc_inlines(prev + "~"@, c@, c@) + "~"@,
        Inline::InlineCode(code) => prev + inline_code_text(code@, idx, all),
        Inline::Link { url, text, .. } => if url@.len() > 0 && url@[0] == '#' {
            adoc_inlines(prev + "<<"@ + url@.subrange(1, url@.len() as int) + ","@, text@, text@)
                + ">>"@
        } else if bare_link(url@, plain_text(text@)) {
            prev + url@
        } else {
            let opened = prev + (if relative_url(url@) {
                "link:"@
            } else {
                seq![]
            }) + url@ + seq!['['];
            if plain_text(text@).contains(',') {
                adoc_inlines(opened.push('"'), text@, text@).push('"').push(']')
            } else {
                adoc_inlines(opened, text@, text@).push(']')
            }
        },
        Inline::Image { url, alt, link, .. } => prev + image_text(url@, plain_text(alt@), link),
        Inline::HardLineBreak => trim_end_char_spec(prev, ' ') + " +\n"@,
        Inline::SoftLineBreak => prev.push('\n'),
        Inline::RawInline { content, .. } => prev + content@,
    }
}

/// Inlines written after `prev`, each soft break followed by `indent`.
pub open spec fn indented_inlines(prev: Seq<char>, s: Seq<Inline>, all: Seq<Inline>, indent: Seq<char>) -> Seq<char>
    decreases s.len(),
{
    if s.len() == 0 {
        prev
    } else {
        let before = indented_inlines(prev, s.drop_last(), all, indent);
        match s.last() {
            Inline::SoftLineBreak => before.push('\n') + indent,
            _ => adoc_inline(before, s.last(), s.len() - 1, all),
        }
    }
}


/// Whether a paragraph after `p` is set off by a blank line.
pub open spec fn paragraph_gap(p: Block, list_depth: int) -> bool {
    match p {
        Block::Paragraph { content } => content@.len() > 0,
        Block::UnorderedList { .. } => list_depth == 0,
        Block::OrderedList { .. } => list_depth == 0,
        Block::RawBlock { .. } => false,
        _ => true,
    }
}

/// Whether a table after `p` is set off by a blank line.
pub open spec fn table_gap(p: Block) -> bool {
    match p {
        Block::Paragraph { .. } | Block::Heading { .. } | Block::CodeBlock { .. } | Block::BlockQuote {
            ..
        } => true,
        _ => false,
    }
}

/// The delimiter of a quote at depth `depth`: four underscores a level.
pub open spec fn quote_rule(depth: int) -> Seq<char> {
    repeat_spec(
        '_',
        (if depth <= usize::MAX / 4 {
            depth * 4
        } else {
            usize::MAX as int
        }) as nat,
    )
}

/// An item that is only an empty paragraph separates the items of a loose list.
pub open spec fn separator_item(item: ListItem) -> bool {
    &&& item.content@.len() == 1
    &&& match item.content@[0] {
        Block::Paragraph { content } => content@.len() == 0,
        _ => false,
    }
}

/// Whether an alignment needs a column specification.
pub open spec fn marked_alignment(a: ColumnAlignment) -> bool {
    a == ColumnAlignment::Center || a == ColumnAlignment::Right
}

pub open spec fn needs_cols(al: Seq<ColumnAlignment>) -> bool
    decreases al.len(),
{
    al.len() > 0 && (needs_cols(al.drop_last()) || marked_alignment(al.last()))
}

pub open spec fn col_mark(a: ColumnAlignment) -> char {
    match a {
        ColumnAlignment::Center => '^',
        ColumnAlignment::Right => '>',
        _ => '<',
    }
}

pub open spec fn col_marks(al: Seq<ColumnAlignment>) -> Seq<char>
    decreases al.len(),
{
    if al.len() == 0 {
        seq![]
    } else {
        col_marks(al.drop_last()) + (if al.len() > 1 {
            seq![',']
        } else {
            seq![]
        }) + seq![col_mark(al.last())]
    }
}

/// The `[cols=...]` line, written when some column is centred or right-aligned.
pub open spec fn cols_line(al: Seq<ColumnAlignment>) -> Seq<char> {
    if needs_cols(al) {
        "[cols=\""@ + col_marks(al) + "\"]\n"@
    } else {
        seq![]
    }
}

/// The `2.3+` prefix of a spanning cell.
pub open spec fn span_prefix(cell: TableCell) -> Seq<char> {
    if cell.spans() {
        (if cell.colspan > 1 {
            decimal(cell.colspan as nat)
        } else {
            seq![]
        }) + (if cell.rowspan > 1 {
            seq!['.'] + decimal(cell.rowspan as nat)
        } else {
            seq![]
        }) + seq!['+']
    } else {
        seq![]
    }
}

/// The cells `s` of a row of `n` cells written after `prev`, a space after
/// each cell but the last of the row.
pub open spec fn cell_row(prev: Seq<char>, s: Seq<TableCell>, n: int) -> Seq<char>
    decreases s.len(),
{
    if s.len() == 0 {
        prev
    } else {
        let c = s.last();
        adoc_inlines(cell_row(prev, s.drop_last(), n) + span_prefix(c) + seq!['|'], c.content@, c.content@)
            + (if s.len() < n {
            seq![' ']
        } else {
            seq![]
        })
    }
}

pub open spec fn body_rows(prev: Seq<char>, rows: Seq<Vec<TableCell>>) -> Seq<char>
    decreases rows.len(),
{
    if rows.len() == 0 {
        prev
    } else {
        cell_row(body_rows(prev, rows.drop_last()), rows.last()@, rows.last()@.len() as int).push('\n')
    }
}

pub open spec fn table_text(
    prev: Seq<char>,
    headers: Seq<TableCell>,
    al: Seq<ColumnAlignment>,
    rows: Seq<Vec<TableCell>>,
) -> Seq<char> {
    body_rows(cell_row(prev + cols_line(al) + "|===\n"@, headers, headers.len() as int) + "\n\n"@, rows)
        + "|===\n"@
}

/// The paragraphs of one definition, indented.
pub open spec fn definition_text(prev: Seq<char>, s: Seq<Block>) -> Seq<char>
    decreases s.len(),
{
    if s.len() == 0 {
        prev
    } else {
        let before = definition_text(prev, s.drop_last());
        match s.last() {
            Block::Paragraph { content } => indented_inlines(before + "  "@, content@, content@, "  "@).push(
                '\n',
            ),
            _ => before,
        }
    }
}

pub open spec fn definitions_text(prev: Seq<char>, defs: Seq<Vec<Block>>) -> Seq<char>
    decreases defs.len(),
{
    if defs.len() == 0 {
        prev
    } else {
        definition_text(definitions_text(prev, defs.drop_last()), defs.last()@)
    }
}

pub open spec fn descriptions(prev: Seq<char>, items: Seq<DescriptionItem>) -> Seq<char>
    decreases items.len(),
{
    if items.len() == 0 {
        prev
    } else {
        let item = items.last();
        definitions_text(
            adoc_inlines(descriptions(prev, items.drop_last()), item.term@, item.term@) + "::\n"@,
            item.definitions@,
        )
    }
}

/// Blocks written after `prev` with lists at depth `ld` and quotes at depth `qd`.
pub open spec fn adoc_blocks(prev: Seq<char>, s: Seq<Block>, ld: int, qd: int) -> Seq<char>
    decreases s, 3nat,
{
    if s.len() == 0 {
        prev
    } else {
        adoc_block(
            adoc_blocks(prev, s.drop_last(), ld, qd),
            s.last(),
            s.len() >= 2,
            if s.len() >= 2 {
                s[s.len() - 2]
            } else {
                s.last()
            },
            ld,
            qd,
        )
    }
}

/// Block `b` written after `prev`; when `later`, `p` is the block before it.
pub open spec fn adoc_block(prev: Seq<char>, b: Block, later: bool, p: Block, ld: int, qd: int) -> Seq<char>
    decreases b, 2nat,
{
    let gap = if later {
        with_blank_line(prev)
    } else {
        prev
    };
    match b {
        Block::Heading { level, content } => adoc_inlines(
            gap + repeat_spec('=', level as nat) + " "@,
            content@,
            content@,
        ).push('\n'),
        Block::Paragraph { content } => if content@.len() == 0 {
            prev
        } else {
            adoc_inlines(
                if later && paragraph_gap(p, ld) {
                    with_blank_line(prev)
                } else {
                    prev
                },
                content@,
                content@,
            ).push('\n')
        },
        Block::CodeBlock { language, content } => gap + (match language {
            Some(l) => "[source,"@ + l@ + "]\n"@,
            None => seq![],
        }) + "----\n"@ + content@ + "\n----\n"@,
        Block::BlockQuote { children } => adoc_blocks(
            gap + quote_rule(deeper(qd)) + "\n\n"@,
            children@,
            ld,
            deeper(qd),
        ).push('\n') + quote_rule(deeper(qd)) + seq!['\n'],
        Block::UnorderedList { items } => bullet_list(prev, items@, later && ld == 0, ld, qd),
        Block::OrderedList { items, .. } => numbered_list(prev, items@, later && ld == 0, ld, qd),
        Block::DescriptionList { items } => descriptions(gap, items@),
        Block::Table { headers, alignments, rows } => table_text(
            if later && table_gap(p) {
                with_blank_line(prev)
            } else {
                prev
            },
            headers@,
            alignments@,
            rows@,
        ),
        Block::HorizontalRule => (if later && !(prev.len() > 0 && prev.last() == '\n') {
            prev.push('\n')
        } else {
            prev
        }) + "'''\n"@,
        Block::RawBlock { content, .. } => (prev + content@).push('\n'),
    }
}

/// A bulleted list after `prev`, one level below `ld`.
pub open spec fn bullet_list(prev: Seq<char>, items: Seq<ListItem>, blank: bool, ld: int, qd: int) -> Seq<char>
    decreases items, 1nat,
{
    bullet_items(
        if blank && ld == 0 {
            with_blank_line(prev)
        } else {
            prev
        },
        items,
        items.len() > 1,
        deeper(ld),
        qd,
    )
}

pub open spec fn bullet_items(prev: Seq<char>, items: Seq<ListItem>, many: bool, ld: int, qd: int) -> Seq<char>
    decreases items, 0nat,
{
    if items.len() == 0 {
        prev
    } else {
        let before = bullet_items(prev, items.drop_last(), many, ld, qd);
        if many && separator_item(items.last()) {
            before.push('\n')
        } else {
            item_blocks(before, items.last().content@, repeat_spec('*', ld as nat), false, ld, qd)
        }
    }
}

/// A numbered list after `prev`, one level below `ld`.
pub open spec fn numbered_list(prev: Seq<char>, items: Seq<ListItem>, blank: bool, ld: int, qd: int) -> Seq<char>
    decreases items, 1nat,
{
    numbered_items(
        if blank && ld == 0 {
            with_blank_line(prev)
        } else {
            prev
        },
        items,
        deeper(ld),
        qd,
    )
}

pub open spec fn numbered_items(prev: Seq<char>, items: Seq<ListItem>, ld: int, qd: int) -> Seq<char>
    decreases items, 0nat,
{
    if items.len() == 0 {
        prev
    } else {
        let before = numbered_items(prev, items.drop_last(), ld, qd);
        if separator_item(items.last()) {
            before.push('\n')
        } else {
            item_blocks(before, items.last().content@, repeat_spec('.', ld as nat), true, ld, qd)
        }
    }
}

/// The blocks `s` of a list item written after `prev`: the marker before the
/// first paragraph, nested lists one level deeper.
pub open spec fn item_blocks(
    prev: Seq<char>,
    s: Seq<Block>,
    marker: Seq<char>,
    ordered: bool,
    ld: int,
    qd: int,
) -> Seq<char>
    decreases s, 0nat,
{
    if s.len() == 0 {
        prev
    } else {
        let before = item_blocks(prev, s.drop_last(), marker, ordered, ld, qd);
        let j = s.len() - 1;
        match s.last() {
            Block::Paragraph { content } => if ordered && content@.len() == 0 && j > 0 {
                before.push('\n')
            } else if j == 0 {
                if !ordered && content@.len() == 0 {
                    (before + marker).push('\n')
                } else {
                    adoc_inlines((before + marker).push(' '), content@, content@).push('\n')
                }
            } else {
                adoc_inlines(before, content@, content@).push('\n')
            },
            Block::UnorderedList { items } => bullet_list(before, items@, false, ld, qd),
            Block::OrderedList { items, .. } => numbered_list(before, items@, false, ld, qd),
            _ => adoc_block(before, s.last(), false, s.last(), ld, qd),
        }
    }
}

pub struct AsciiDocEmitter;

impl Emitter for AsciiDocEmitter {
    fn emit(&self, doc: &Document) -> (r: Result<String, EmitError>)
        ensures
            r matches Ok(s) && ends_with_single_newline(s@),
            r matches Ok(s) && s@ == finished(adoc_blocks(seq![], doc.children@, 0, 0)),
    {
        Ok(emit_asciidoc(&doc.children))
    }
}

/// Writes blocks as AsciiDoc; the text ends with exactly one newline.
pub fn emit_asciidoc(blocks: &Vec<Block>) -> (s: String)
    ensures
        s@ == finished(adoc_blocks(seq![], blocks@, 0, 0)),
        ends_with_single_newline(s@),
{
    let mut ctx = AdocCtx { out: Vec::new(), list_depth: 0, quote_depth: 0 };
    emit_blocks(&mut ctx, blocks);
    finish_output(&ctx.out)
}

struct AdocCtx {
    out: Vec<char>,
    list_depth: usize,
    quote_depth: usize,
}

fn inc(n: usize) -> (r: usize)
    ensures
        r == deeper(n as int),
{
    if n < usize::MAX {
        n + 1
    } else {
        n
    }
}

fn emit_blocks(ctx: &mut AdocCtx, blocks: &Vec<Block>)
    ensures
        final(ctx).out@ == adoc_blocks(
            old(ctx).out@,
            blocks@,
            old(ctx).list_depth as int,
            old(ctx).quote_depth as int,
        ),
        final(ctx).list_depth == old(ctx).list_depth,
        final(ctx).quote_depth == old(ctx).quote_depth,
    decreases blocks, 2nat,
{
    let ghost start = ctx.out@;
    let mut i: usize = 0;
    while i < blocks.len()
        invariant
            i <= blocks.len(),
            ctx.out@ == adoc_blocks(
                start,
                blocks@.subrange(0, i as int),
                old(ctx).list_depth as int,
                old(ctx).quote_depth as int,
            ),
            ctx.list_depth == old(ctx).list_depth,
            ctx.quote_depth == old(ctx).quote_depth,
        decreases blocks.len() - i,
    {
        let prev = if i > 0 {
            &blocks[i - 1]
        } else {
            &blocks[i]
        };
        assert(decreases_to!(blocks => blocks@[i as int]));
        emit_block(ctx, &blocks[i], i > 0, prev);
        proof {
            let pre = blocks@.subrange(0, i + 1);
            assert(pre.drop_last() =~= blocks@.subrange(0, i as int));
            assert(pre.last() == blocks@[i as int]);
            if i > 0 {
                assert(pre[pre.len() - 2] == blocks@[i - 1]);
            }
        }
        i += 1;
    }
    assert(blocks@.subrange(0, blocks@.len() as int) =~= blocks@);
}

/// Whether a paragraph after `prev` is separated from it by a blank line.
fn paragraph_needs_blank(list_depth: usize, prev: &Block) -> (b: bool)
    ensures
        b == paragraph_gap(*prev, list_depth as int),
{
    match prev {
        Block::Paragraph { content } => content.len() > 0,
        Block::Heading { .. } | Block::CodeBlock { .. } | Block::BlockQuote { .. }
        | Block::HorizontalRule | Block::Table { .. } | Block::DescriptionList { .. } => true,
        Block::UnorderedList { .. } | Block::OrderedList { .. } => list_depth == 0,
        _ => false,
    }
}

/// Writes one block; when `later`, `prev` is the block before it in the same
/// sequence.
fn emit_block(ctx: &mut AdocCtx, block: &Block, later: bool, prev: &Block)
    ensures
        final(ctx).out@ == adoc_block(
            old(ctx).out@,
            *block,
            later,
            *prev,
            old(ctx).list_depth as int,
            old(ctx).quote_depth as int,
        ),
        final(ctx).list_depth == old(ctx).list_depth,
        final(ctx).quote_depth == old(ctx).quote_depth,
    decreases block, 1nat,
{
    match block {
        Block::Heading { level, content } => {
            if later {
                ensure_blank_line(&mut ctx.out);
            }
            push_all(&mut ctx.out, &repeat('=', *level as usize));
            push_str(&mut ctx.out, " ");
            emit_inlines(ctx, content);
            ctx.out.push('\n');
        },
        Block::Paragraph { content } => {
            if content.len() == 0 {
                return;
            }
            if later && paragraph_needs_blank(ctx.list_depth, prev) {
                ensure_blank_line(&mut ctx.out);
            }
            emit_inlines(ctx, content);
            ctx.out.push('\n');
        },
        Block::CodeBlock { language, content } => emit_code_block(ctx, later, language, content),
        Block::BlockQuote { children } => emit_quote(ctx, later, children),
        Block::UnorderedList { items } => {
            let blank = later && ctx.list_depth == 0;
            emit_unordered_list(ctx, items, blank);
        },
        Block::OrderedList { items, .. } => {
            let blank = later && ctx.list_depth == 0;
            emit_ordered_list(ctx, items, blank);
        },
        Block::DescriptionList { items } => {
            if later {
                ensure_blank_line(&mut ctx.out);
            }
            emit_descriptions(ctx, items);
        },
        Block::Table { headers, alignments, rows } => {
            if later {
                match prev {
                    Block::Paragraph { .. } | Block::Heading { .. } | Block::CodeBlock { .. }
                    | Block::BlockQuote { .. } => ensure_blank_line(&mut ctx.out),
                    _ => {},
                }
            }
            emit_table(ctx, headers, alignments, rows);
        },
        Block::HorizontalRule => {
            if later && !last_is(&ctx.out, '\n') {
                ctx.out.push('\n');
            }
            push_str(&mut ctx.out, "'''\n");
        },
        Block::RawBlock { content, .. } => {
            push_string(&mut ctx.out, content);
            ctx.out.push('\n');
        },
    }
}

fn emit_code_block(ctx: &mut AdocCtx, later: bool, language: &Option<String>, content: &String)
    ensures
        final(ctx).out@ == (if later {
            with_blank_line(old(ctx).out@)
        } else {
            old(ctx).out@
        }) + (match *language {
            Some(l) => "[source,"@ + l@ + "]\n"@,
            None => seq![],
        }) + "----\n"@ + content@ + "\n----\n"@,
        final(ctx).list_depth == old(ctx).list_depth,
        final(ctx).quote_depth == old(ctx).quote_depth,
{
    if later {
        ensure_blank_line(&mut ctx.out);
    }
    let ghost gap = ctx.out@;
    if let Some(lang) = language {
        push_str(&mut ctx.out, "[source,");
        push_string(&mut ctx.out, lang);
        push_str(&mut ctx.out, "]\n");
    }
    assert(ctx.out@ =~= gap + (match *language {
        Some(l) => "[source,"@ + l@ + "]\n"@,
        None => seq![],
    }));
    push_str(&mut ctx.out, "----\n");
    push_string(&mut ctx.out, content);
    push_str(&mut ctx.out, "\n----\n");
}

fn emit_quote(ctx: &mut AdocCtx, later: bool, children: &Vec<Block>)
    ensures
        final(ctx).out@ == adoc_blocks(
            (if later {
                with_blank_line(old(ctx).out@)
            } else {
                old(ctx).out@
            }) + quote_rule(deeper(old(ctx).quote_depth as int)) + "\n\n"@,
            children@,
            old(ctx).list_depth as int,
            deeper(old(ctx).quote_depth as int),
        ).push('\n') + quote_rule(deeper(old(ctx).quote_depth as int)) + seq!['\n'],
        final(ctx).list_depth == old(ctx).list_depth,
        final(ctx).quote_depth == old(ctx).quote_depth,
    decreases children, 3nat,
{
    if later {
        ensure_blank_line(&mut ctx.out);
    }
    let saved = ctx.quote_depth;
    ctx.quote_depth = inc(saved);
    let n = if ctx.quote_depth <= usize::MAX / 4 {
        ctx.quote_depth * 4
    } else {
        usize::MAX
    };
    let delim = repeat('_', n);
    push_all(&mut ctx.out, &delim);
    push_str(&mut ctx.out, "\n\n");
    emit_blocks(ctx, children);
    ctx.out.push('\n');
    push_all(&mut ctx.out, &delim);
    ctx.out.push('\n');
    ctx.quote_depth = saved;
}

fn emit_descriptions(ctx: &mut AdocCtx, items: &Vec<DescriptionItem>)
    ensures
        final(ctx).out@ == descriptions(old(ctx).out@, items@),
        final(ctx).list_depth == old(ctx).list_depth,
        final(ctx).quote_depth == old(ctx).quote_depth,
{
    let ghost start = ctx.out@;
    let indent = chars_of("  ");
    let mut j: usize = 0;
    while j < items.len()
        invariant
            j <= items.len(),
            indent@ == "  "@,
            ctx.out@ == descriptions(start, items@.subrange(0, j as int)),
            ctx.list_depth == old(ctx).list_depth,
            ctx.quote_depth == old(ctx).quote_depth,
        decreases items.len() - j,
    {
        let item = &items[j];
        assert(items@.subrange(0, j + 1).drop_last() =~= items@.subrange(0, j as int));
        assert(items@.subrange(0, j + 1).last() == items@[j as int]);
        emit_inlines(ctx, &item.term);
        push_str(&mut ctx.out, "::\n");
        let ghost termed = ctx.out@;
        let mut d: usize = 0;
        while d < item.definitions.len()
            invariant
                d <= item.definitions.len(),
                indent@ == "  "@,
                ctx.out@ == definitions_text(termed, item.definitions@.subrange(0, d as int)),
                ctx.list_depth == old(ctx).list_depth,
                ctx.quote_depth == old(ctx).quote_depth,
            decreases item.definitions.len() - d,
        {
            assert(item.definitions@.subrange(0, d + 1).drop_last() =~= item.definitions@.subrange(
                0,
                d as int,
            ));
            emit_definition(ctx, &item.definitions[d], &indent);
            d += 1;
        }
        assert(item.definitions@.subrange(0, item.definitions@.len() as int) =~= item.definitions@);
        j += 1;
    }
    assert(items@.subrange(0, items@.len() as int) =~= items@);
}

fn emit_definition(ctx: &mut AdocCtx, defs: &Vec<Block>, indent: &Vec<char>)
    requires
        indent@ == "  "@,
    ensures
        final(ctx).out@ == definition_text(old(ctx).out@, defs@),
        final(ctx).list_depth == old(ctx).list_depth,
        final(ctx).quote_depth == old(ctx).quote_depth,
{
    let ghost start = ctx.out@;
    let mut e: usize = 0;
    while e < defs.len()
        invariant
            e <= defs.len(),
            indent@ == "  "@,
            ctx.out@ == definition_text(start, defs@.subrange(0, e as int)),
            ctx.list_depth == old(ctx).list_depth,
            ctx.quote_depth == old(ctx).quote_depth,
        decreases defs.len() - e,
    {
        assert(defs@.subrange(0, e + 1).drop_last() =~= defs@.subrange(0, e as int));
        assert(defs@.subrange(0, e + 1).last() == defs@[e as int]);
        match &defs[e] {
            Block::Paragraph { content } => {
                push_str(&mut ctx.out, "  ");
                emit_inlines_with_indent(ctx, content, indent);
                ctx.out.push('\n');
            },
            _ => {},
        }
        e += 1;
    }
    assert(defs@.subrange(0, defs@.len() as int) =~= defs@);
}

/// Whether a list item is only an empty paragraph (a loose-list separator).
fn is_separator_item(item: &ListItem) -> (b: bool)
    ensures
        b == separator_item(*item),
{
    item.content.len() == 1 && match &item.content[0] {
        Block::Paragraph { content } => content.len() == 0,
        _ => false,
    }
}

/// Writes the blocks of an item; `ordered` selects the ordered-list rules for
/// empty paragraphs after the first block.
fn emit_item(ctx: &mut AdocCtx, item: &ListItem, marker: &Vec<char>, ordered: bool)
    ensures
        final(ctx).out@ == item_blocks(
            old(ctx).out@,
            item.content@,
            marker@,
            ordered,
            old(ctx).list_depth as int,
            old(ctx).quote_depth as int,
        ),
        final(ctx).list_depth == old(ctx).list_depth,
        final(ctx).quote_depth == old(ctx).quote_depth,
    decreases item, 0nat,
{
    let ghost start = ctx.out@;
    let ghost ld = ctx.list_depth as int;
    let ghost qd = ctx.quote_depth as int;
    let mut j: usize = 0;
    while j < item.content.len()
        invariant
            j <= item.content.len(),
            ctx.out@ == item_blocks(start, item.content@.subrange(0, j as int), marker@, ordered, ld, qd),
            ctx.list_depth == ld,
            ctx.quote_depth == qd,
        decreases item.content.len() - j,
    {
        let block = &item.content[j];
        assert(decreases_to!(item => item.content));
        assert(decreases_to!(item.content => item.content@[j as int]));
        assert(item.content@.subrange(0, j + 1).drop_last() =~= item.content@.subrange(0, j as int));
        assert(item.content@.subrange(0, j + 1).last() == item.content@[j as int]);
        match block {
            Block::Paragraph { content } => {
                if ordered && content.len() == 0 && j > 0 {
                    ctx.out.push('\n');
                } else if j == 0 {
                    if !ordered && content.len() == 0 {
                        push_all(&mut ctx.out, marker);
                        ctx.out.push('\n');
                    } else {
                        push_all(&mut ctx.out, marker);
                        ctx.out.push(' ');
                        emit_inlines(ctx, content);
                        ctx.out.push('\n');
                    }
                } else {
                    emit_inlines(ctx, content);
                    ctx.out.push('\n');
                }
            },
            Block::UnorderedList { items } => emit_unordered_list(ctx, items, false),
            Block::OrderedList { items, .. } => emit_ordered_list(ctx, items, false),
            _ => emit_block(ctx, block, false, block),
        }
        j += 1;
    }
    assert(item.content@.subrange(0, item.content@.len() as int) =~= item.content@);
}

fn emit_unordered_list(ctx: &mut AdocCtx, items: &Vec<ListItem>, blank_before: bool)
    ensures
        final(ctx).out@ == bullet_list(
            old(ctx).out@,
            items@,
            blank_before,
            old(ctx).list_depth as int,
            old(ctx).quote_depth as int,
        ),
        final(ctx).list_depth == old(ctx).list_depth,
        final(ctx).quote_depth == old(ctx).quote_depth,
    decreases items, 1nat,
{
    if blank_before && ctx.list_depth == 0 {
        ensure_blank_line(&mut ctx.out);
    }
    let ghost start = ctx.out@;
    let saved = ctx.list_depth;
    ctx.list_depth = inc(saved);
    let ghost ld = ctx.list_depth as int;
    let ghost qd = ctx.quote_depth as int;
    let mut i: usize = 0;
    while i < items.len()
        invariant
            i <= items.len(),
            ctx.out@ == bullet_items(start, items@.subrange(0, i as int), items@.len() > 1, ld, qd),
            ctx.list_depth == ld,
            ctx.quote_depth == qd,
        decreases items.len() - i,
    {
        let item = &items[i];
        assert(decreases_to!(items => items@[i as int]));
        assert(items@.subrange(0, i + 1).drop_last() =~= items@.subrange(0, i as int));
        assert(items@.subrange(0, i + 1).last() == items@[i as int]);
        if items.len() > 1 && is_separator_item(item) {
            ctx.out.push('\n');
        } else {
            let marker = repeat('*', ctx.list_depth);
            emit_item(ctx, item, &marker, false);
        }
        i += 1;
    }
    assert(items@.subrange(0, items@.len() as int) =~= items@);
    ctx.list_depth = saved;
}

fn emit_ordered_list(ctx: &mut AdocCtx, items: &Vec<ListItem>, blank_before: bool)
    ensures
        final(ctx).out@ == numbered_list(
            old(ctx).out@,
            items@,
            blank_before,
            old(ctx).list_depth as int,
            old(ctx).quote_depth as int,
        ),
        final(ctx).list_depth == old(ctx).list_depth,
        final(ctx).quote_depth == old(ctx).quote_depth,
    decreases items, 1nat,
{
    if blank_before && ctx.list_depth == 0 {
        ensure_blank_line(&mut ctx.out);
    }
    let ghost start = ctx.out@;
    let saved = ctx.list_depth;
    ctx.list_depth = inc(saved);
    let ghost ld = ctx.list_depth as int;
    let ghost qd = ctx.quote_depth as int;
    let mut i: usize = 0;
    while i < items.len()
        invariant
            i <= items.len(),
            ctx.out@ == numbered_items(start, items@.subrange(0, i as int), ld, qd),
            ctx.list_depth == ld,
            ctx.quote_depth == qd,
        decreases items.len() - i,
    {
        let item = &items[i];
        assert(decreases_to!(items => items@[i as int]));
        assert(items@.subrange(0, i + 1).drop_last() =~= items@.subrange(0, i as int));
        assert(items@.subrange(0, i + 1).last() == items@[i as int]);
        if is_separator_item(item) {
            ctx.out.push('\n');
        } else {
            let marker = repeat('.', ctx.list_depth);
            emit_item(ctx, item, &marker, true);
        }
        i += 1;
    }
    assert(items@.subrange(0, items@.len() as int) =~= items@);
    ctx.list_depth = saved;
}

/// Writes the `2.3+` prefix of a spanning cell.
pub(crate) fn push_span_prefix(out: &mut Vec<char>, cell: &TableCell)
    ensures
        final(out)@ == old(out)@ + span_prefix(*cell),
{
    let ghost start = out@;
    if cell.has_span() {
        if cell.colspan > 1 {
            push_decimal(out, cell.colspan as u64);
        }
        let ghost cols = out@;
        if cell.rowspan > 1 {
            out.push('.');
            push_decimal(out, cell.rowspan as u64);
        }
        assert(out@ =~= cols + (if cell.rowspan > 1 {
            seq!['.'] + decimal(cell.rowspan as nat)
        } else {
            seq![]
        }));
        out.push('+');
    }
    assert(out@ =~= start + span_prefix(*cell));
}

fn emit_cell_row(ctx: &mut AdocCtx, cells: &Vec<TableCell>)
    ensures
        final(ctx).out@ == cell_row(old(ctx).out@, cells@, cells@.len() as int),
        final(ctx).list_depth == old(ctx).list_depth,
        final(ctx).quote_depth == old(ctx).quote_depth,
{
    let ghost start = ctx.out@;
    let mut i: usize = 0;
    while i < cells.len()
        invariant
            i <= cells.len(),
            ctx.out@ == cell_row(start, cells@.subrange(0, i as int), cells@.len() as int),
            ctx.list_depth == old(ctx).list_depth,
            ctx.quote_depth == old(ctx).quote_depth,
        decreases cells.len() - i,
    {
        assert(cells@.subrange(0, i + 1).drop_last() =~= cells@.subrange(0, i as int));
        assert(cells@.subrange(0, i + 1).last() == cells@[i as int]);
        let ghost before = ctx.out@;
        push_span_prefix(&mut ctx.out, &cells[i]);
        ctx.out.push('|');
        assert(ctx.out@ =~= before + span_prefix(cells@[i as int]) + seq!['|']);
        emit_inlines(ctx, &cells[i].content);
        let ghost written = ctx.out@;
        if i + 1 < cells.len() {
            ctx.out.push(' ');
        }
        assert(ctx.out@ =~= written + (if i + 1 < cells@.len() {
            seq![' ']
        } else {
            seq![]
        }));
        i += 1;
    }
    assert(cells@.subrange(0, cells@.len() as int) =~= cells@);
}

fn emit_cols_line(ctx: &mut AdocCtx, alignments: &Vec<ColumnAlignment>)
    ensures
        final(ctx).out@ == old(ctx).out@ + cols_line(alignments@),
        final(ctx).list_depth == old(ctx).list_depth,
        final(ctx).quote_depth == old(ctx).quote_depth,
{
    let mut needs = false;
    let mut k: usize = 0;
    while k < alignments.len()
        invariant
            k <= alignments.len(),
            needs == needs_cols(alignments@.subrange(0, k as int)),
        decreases alignments.len() - k,
    {
        assert(alignments@.subrange(0, k + 1).drop_last() =~= alignments@.subrange(0, k as int));
        match alignments[k] {
            ColumnAlignment::Center | ColumnAlignment::Right => needs = true,
            _ => {},
        }
        k += 1;
    }
    assert(alignments@.subrange(0, alignments@.len() as int) =~= alignments@);
    if needs {
        let ghost start = ctx.out@;
        push_str(&mut ctx.out, "[cols=\"");
        let ghost opened = ctx.out@;
        let mut k: usize = 0;
        while k < alignments.len()
            invariant
                k <= alignments.len(),
                ctx.out@ == opened + col_marks(alignments@.subrange(0, k as int)),
                ctx.list_depth == old(ctx).list_depth,
                ctx.quote_depth == old(ctx).quote_depth,
            decreases alignments.len() - k,
        {
            assert(alignments@.subrange(0, k + 1).drop_last() =~= alignments@.subrange(0, k as int));
            if k > 0 {
                ctx.out.push(',');
            }
            match alignments[k] {
                ColumnAlignment::Left | ColumnAlignment::Default => ctx.out.push('<'),
                ColumnAlignment::Center => ctx.out.push('^'),
                ColumnAlignment::Right => ctx.out.push('>'),
            }
            assert(ctx.out@ =~= opened + col_marks(alignments@.subrange(0, k + 1)));
            k += 1;
        }
        push_str(&mut ctx.out, "\"]\n");
        assert(ctx.out@ =~= start + cols_line(alignments@));
    } else {
        assert(ctx.out@ =~= old(ctx).out@ + cols_line(alignments@));
    }
}

fn emit_table(
    ctx: &mut AdocCtx,
    headers: &Vec<TableCell>,
    alignments: &Vec<ColumnAlignment>,
    rows: &Vec<Vec<TableCell>>,
)
    ensures
        final(ctx).out@ == table_text(old(ctx).out@, headers@, alignments@, rows@),
        final(ctx).list_depth == old(ctx).list_depth,
        final(ctx).quote_depth == old(ctx).quote_depth,
{
    emit_cols_line(ctx, alignments);
    push_str(&mut ctx.out, "|===\n");
    emit_cell_row(ctx, headers);
    push_str(&mut ctx.out, "\n\n");
    let ghost head = ctx.out@;
    let mut r: usize = 0;
    while r < rows.len()
        invariant
            r <= rows.len(),
            ctx.out@ == body_rows(head, rows@.subrange(0, r as int)),
            ctx.list_depth == old(ctx).list_depth,
            ctx.quote_depth == old(ctx).quote_depth,
        decreases rows.len() - r,
    {
        assert(rows@.subrange(0, r + 1).drop_last() =~= rows@.subrange(0, r as int));
        assert(rows@.subrange(0, r + 1).last() == rows@[r as int]);
        emit_cell_row(ctx, &rows[r]);
        ctx.out.push('\n');
        r += 1;
    }
    assert(rows@.subrange(0, rows@.len() as int) =~= rows@);
    push_str(&mut ctx.out, "|===\n");
}

fn emit_inlines(ctx: &mut AdocCtx, inlines: &Vec<Inline>)
    ensures
        final(ctx).out@ == adoc_inlines(old(ctx).out@, inlines@, inlines@),
        final(ctx).list_depth == old(ctx).list_depth,
        final(ctx).quote_depth == old(ctx).quote_depth,
    decreases inlines, 2nat,
{
    let ghost start = ctx.out@;
    let mut i: usize = 0;
    while i < inlines.len()
        invariant
            i <= inlines.len(),
            ctx.out@ == adoc_inlines(start, inlines@.subrange(0, i as int), inlines@),
            ctx.list_depth == old(ctx).list_depth,
            ctx.quote_depth == old(ctx).quote_depth,
        decreases inlines.len() - i,
    {
        assert(decreases_to!(inlines => inlines@[i as int]));
        emit_inline(ctx, &inlines[i], i, inlines);
        assert(inlines@.subrange(0, i + 1).drop_last() =~= inlines@.subrange(0, i as int));
        i += 1;
    }
    assert(inlines@.subrange(0, inlines@.len() as int) =~= inlines@);
}

fn emit_inlines_with_indent(ctx: &mut AdocCtx, inlines: &Vec<Inline>, indent: &Vec<char>)
    ensures
        final(ctx).out@ == indented_inlines(old(ctx).out@, inlines@, inlines@, indent@),
        final(ctx).list_depth == old(ctx).list_depth,
        final(ctx).quote_depth == old(ctx).quote_depth,
    decreases inlines, 2nat,
{
    let ghost start = ctx.out@;
    let mut i: usize = 0;
    while i < inlines.len()
        invariant
            i <= inlines.len(),
            ctx.out@ == indented_inlines(start, inlines@.subrange(0, i as int), inlines@, indent@),
            ctx.list_depth == old(ctx).list_depth,
            ctx.quote_depth == old(ctx).quote_depth,
        decreases inlines.len() - i,
    {
        assert(decreases_to!(inlines => inlines@[i as int]));
        assert(inlines@.subrange(0, i + 1).drop_last() =~= inlines@.subrange(0, i as int));
        match &inlines[i] {
            Inline::SoftLineBreak => {
                ctx.out.push('\n');
                push_all(&mut ctx.out, indent);
            },
            _ => emit_inline(ctx, &inlines[i], i, inlines),
        }
        i += 1;
    }
    assert(inlines@.subrange(0, inlines@.len() as int) =~= inlines@);
}

fn emit_wrapped(ctx: &mut AdocCtx, open: &str, content: &Vec<Inline>, close: &str)
    ensures
        final(ctx).out@ == adoc_inlines(old(ctx).out@ + open@, content@, content@) + close@,
        final(ctx).list_depth == old(ctx).list_depth,
        final(ctx).quote_depth == old(ctx).quote_depth,
    decreases content, 3nat,
{
    push_str(&mut ctx.out, open);
    emit_inlines(ctx, content);
    push_str(&mut ctx.out, close);
}

fn emit_inline(ctx: &mut AdocCtx, inline: &Inline, idx: usize, siblings: &Vec<Inline>)
    requires
        idx < siblings@.len(),
    ensures
        final(ctx).out@ == adoc_inline(old(ctx).out@, *inline, idx as int, siblings@),
        final(ctx).list_depth == old(ctx).list_depth,
        final(ctx).quote_depth == old(ctx).quote_depth,
    decreases inline, 1nat,
{
    match inline {
        Inline::Text(t) => {
            let typeset = apply_smart_typography(&chars_of_string(t));
            push_all(&mut ctx.out, &typeset);
        },
        Inline::Bold(c) => emit_wrapped(ctx, "*", c, "*"),
        Inline::Italic(c) => emit_wrapped(ctx, "_", c, "_"),
        Inline::BoldItalic(c) => emit_wrapped(ctx, "*_", c, "_*"),
        Inline::Strikethrough(c) => emit_wrapped(ctx, "[line-through]#", c, "#"),
        Inline::Superscript(c) => emit_wrapped(ctx, "^", c, "^"),
        Inline::Subscript(c) => emit_wrapped(ctx, "~", c, "~"),
        Inline::InlineCode(code) => emit_inline_code(ctx, &chars_of_string(code), idx, siblings),
        Inline::Link { url, text, .. } => emit_link(ctx, &chars_of_string(url), text),
        Inline::Image { url, alt, link, .. } => {
            let ghost start = ctx.out@;
            let alt_text = inlines_to_plain_text(alt);
            push_str(&mut ctx.out, "image:");
            push_string(&mut ctx.out, url);
            ctx.out.push('[');
            if contains_char(&alt_text, ',') {
                ctx.out.push('"');
                push_all(&mut ctx.out, &alt_text);
                ctx.out.push('"');
            } else {
                push_all(&mut ctx.out, &alt_text);
            }
            let ghost with_alt = ctx.out@;
            if let Some(l) = link {
                push_str(&mut ctx.out, ",link=");
                push_string(&mut ctx.out, l);
            }
            ctx.out.push(']');
            assert(ctx.out@ =~= start + image_text(url@, plain_text(alt@), *link));
        },
        Inline::HardLineBreak => {
            let t = trim_end_char(&ctx.out, ' ');
            ctx.out = t;
            push_str(&mut ctx.out, " +\n");
        },
        Inline::SoftLineBreak => ctx.out.push('\n'),
        Inline::RawInline { content, .. } => push_string(&mut ctx.out, content),
    }
}

fn emit_inline_code(ctx: &mut AdocCtx, code: &Vec<char>, idx: usize, siblings: &Vec<Inline>)
    ensures
        final(ctx).out@ == old(ctx).out@ + inline_code_text(code@, idx as int, siblings@),
        final(ctx).list_depth == old(ctx).list_depth,
        final(ctx).quote_depth == old(ctx).quote_depth,
{
    let ghost start = ctx.out@;
    if contains_lit(code, "++") {
        push_str(&mut ctx.out, "`pass:c[");
        push_all(&mut ctx.out, code);
        push_str(&mut ctx.out, "]`");
    } else if contains_lit(code, "...") || contains_lit(code, "->") || has_attribute_reference(
        code,
    ) {
        push_str(&mut ctx.out, "`+");
        push_all(&mut ctx.out, code);
        push_str(&mut ctx.out, "+`");
    } else if is_code_adjacent_to_text(idx, siblings) {
        push_str(&mut ctx.out, "``");
        push_all(&mut ctx.out, code);
        push_str(&mut ctx.out, "``");
    } else {
        push_str(&mut ctx.out, "`");
        push_all(&mut ctx.out, code);
        push_str(&mut ctx.out, "`");
    }
    assert(ctx.out@ =~= start + inline_code_text(code@, idx as int, siblings@));
}

fn emit_link(ctx: &mut AdocCtx, url: &Vec<char>, text: &Vec<Inline>)
    ensures
        final(ctx).out@ == (if url@.len() > 0 && url@[0] == '#' {
            adoc_inlines(old(ctx).out@ + "<<"@ + url@.subrange(1, url@.len() as int) + ","@, text@, text@)
                + ">>"@
        } else if bare_link(url@, plain_text(text@)) {
            old(ctx).out@ + url@
        } else {
            let opened = old(ctx).out@ + (if relative_url(url@) {
                "link:"@
            } else {
                seq![]
            }) + url@ + seq!['['];
            if plain_text(text@).contains(',') {
                adoc_inlines(opened.push('"'), text@, text@).push('"').push(']')
            } else {
                adoc_inlines(opened, text@, text@).push(']')
            }
        }),
        final(ctx).list_depth == old(ctx).list_depth,
        final(ctx).quote_depth == old(ctx).quote_depth,
    decreases text, 4nat,
{
    if first_is(url, '#') {
        push_str(&mut ctx.out, "<<");
        push_all(&mut ctx.out, &skip(url, 1));
        push_str(&mut ctx.out, ",");
        emit_inlines(ctx, text);
        push_str(&mut ctx.out, ">>");
        return;
    }
    let ghost start = ctx.out@;
    let text_str = inlines_to_plain_text(text);
    if eq(&text_str, url) || eq(&text_str, &trim_end_char(url, '/')) || eq(
        url,
        &trim_end_char(&text_str, '/'),
    ) {
        push_all(&mut ctx.out, url);
        return;
    }
    let relative = !starts_with_lit(url, "http://") && !starts_with_lit(url, "https://")
        && !starts_with_lit(url, "ftp://");
    if relative {
        push_str(&mut ctx.out, "link:");
    }
    push_all(&mut ctx.out, url);
    ctx.out.push('[');
    assert(ctx.out@ =~= start + (if relative_url(url@) {
        "link:"@
    } else {
        seq![]
    }) + url@ + seq!['[']);
    if contains_char(&text_str, ',') {
        ctx.out.push('"');
        emit_inlines(ctx, text);
        ctx.out.push('"');
    } else {
        emit_inlines(ctx, text);
    }
    ctx.out.push(']');
}

/// Whether an inline code span is directly followed by a letter or digit.
fn is_code_adjacent_to_text(idx: usize, siblings: &Vec<Inline>) -> (b: bool)
    ensures
        b == code_adjacent(idx as int, siblings@),
{
    if idx < siblings.len() && siblings.len() - idx > 1 {
        match &siblings[idx + 1] {
            Inline::Text(t) => {
                let v = chars_of_string(t);
                if v.len() > 0 {
                    return is_alphanumeric(v[0]);
                }
            },
            _ => {},
        }
    }
    false
}

/// Whether code holds an attribute reference such as `{name}`.
fn has_attribute_reference(code: &Vec<char>) -> (b: bool)
    ensures
        b == attribute_reference_from(code@, 0),
{
    let mut i: usize = 0;
    while i < code.len()
        invariant
            i <= code.len(),
            attribute_reference_from(code@, i as int) == attribute_reference_from(code@, 0),
        decreases code.len() - i,
    {
        if code[i] == '{' {
            let start = i + 1;
            let mut j = start;
            while j < code.len() && code[j] != '}'
                invariant
                    start <= j <= code.len(),
                    close_brace_from(code@, j as int) == close_brace_from(code@, start as int),
                decreases code.len() - j,
            {
                j = j + 1;
            }
            assert(close_brace_from(code@, start as int) == j);
            if j >= code.len() {
                return false;
            }
            if j > start {
                let mut ok = true;
                let mut k = start;
                while k < j
                    invariant
                        start <= k <= j,
                        j < code.len(),
                        ok == name_chars(code@, start as int, k as int),
                    decreases j - k,
                {
                    let c = code[k];
                    if !(is_alphanumeric(c) || c == '-' || c == '_') {
                        ok = false;
                    }
                    k = k + 1;
                }
                if ok {
                    return true;
                }
            }
            i = j + 1;
        } else {
            i = i + 1;
        }
    }
    false
}

/// SmartyPants-style typography: `...` to an ellipsis, `---` to an em dash,
/// `--` to an en dash, `<<`/`>>` to guillemets, and non-breaking spaces to
/// `{nbsp}`.
pub(crate) fn apply_smart_typography(text: &Vec<char>) -> (v: Vec<char>)
    ensures
        v@ == typography(text@),
{
    proof {
        reveal_strlit(". . .");
        reveal_strlit("...");
        reveal_strlit("---");
        reveal_strlit("--");
        reveal_strlit("<< ");
        reveal_strlit(" >>");
        reveal_strlit("<<");
        reveal_strlit(">>");
    }
    let t = replace_lit(text, ". . .", "...");
    let t = replace_lit(&t, "...", "\u{2026}");
    let t = replace_lit(&t, "---", "\u{2014}");
    let t = replace_lit(&t, "--", "\u{2013}");
    let t = replace_lit(&t, "<< ", "\u{ab}\u{a0}");
    let t = replace_lit(&t, " >>", "\u{a0}\u{bb}");
    let t = replace_lit(&t, "<<", "\u{ab}");
    let t = replace_lit(&t, ">>", "\u{bb}");
    replace_char(&t, '\u{a0}', "{nbsp}")
}

/// The text of inlines without their markup; line breaks become spaces.
pub(crate) fn inlines_to_plain_text(inlines: &Vec<Inline>) -> (s: Vec<char>)
    ensures
        s@ == plain_text(inlines@),
    decreases inlines,
{
    let mut s: Vec<char> = Vec::new();
    let mut i: usize = 0;
    while i < inlines.len()
        invariant
            i <= inlines.len(),
            s@ == plain_text(inlines@.subrange(0, i as int)),
        decreases inlines.len() - i,
    {
        assert(inlines@.subrange(0, i + 1).drop_last() =~= inlines@.subrange(0, i as int));
        assert(inlines@.subrange(0, i + 1).last() == inlines@[i as int]);
        let ghost before = s@;
        match &inlines[i] {
            Inline::Text(t) => push_string(&mut s, t),
            Inline::Bold(c) | Inline::Italic(c) | Inline::BoldItalic(c) | Inline::Strikethrough(c)
            | Inline::Superscript(c) | Inline::Subscript(c) => {
                let inner = inlines_to_plain_text(c);
                push_all(&mut s, &inner);
            },
            Inline::InlineCode(code) => push_string(&mut s, code),
            Inline::Link { text, .. } => {
                let inner = inlines_to_plain_text(text);
                push_all(&mut s, &inner);
            },
            Inline::SoftLineBreak | Inline::HardLineBreak => s.push(' '),
            _ => {},
        }
        assert(s@ =~= before + plain_inline(inlines@[i as int]));
        i += 1;
    }
    assert(inlines@.subrange(0, inlines@.len() as int) =~= inlines@);
    s
}

} // verus!
