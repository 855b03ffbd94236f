//! AsciiDoc reader.
use vstd::prelude::*;

use crate::ast::{inline_model, inlines_model, InlineModel, Block, DescriptionItem, Document, Inline, ListItem, TableCell};
use crate::error::ParseError;
use crate::format::Parser;
use crate::formats::common::{ascii_alnum, char_before_blank, has_mark, plain_char, plain_line, one_plain_line, line_body, plain_paragraph, reads_as_plain_text, reads_as_plain_paragraph, lemma_prefix_mark, lemma_plain_line_text, first_match_from, lemma_first_match_from, joins_text, text_of_inline, error_is, is_code_block, LineCursor, bracket_content, default_alignments, no_adjacent_text, paragraph_item, push_merged, push_to_last_item, until_char, until_str};
use crate::formats::asciidoc::emitter::span_prefix;
use crate::text::{lines_spec, has_prefix, has_suffix, decimal, leading_spec, is_digit_spec, parse_unsigned_spec, contains_spec, occurs_at, index_of_char, join_spec, lemma_index_of_char_unique, trim_spec, views, all_eq, byte_len, chars_of, copy, count_leading, ends_with_lit, eq_lit, find_char, find_lit, first_is, is_blank, is_digit, is_ws, join, last_is, lines, matches_at, parse_unsigned, push_all, repeat, replace_lit, skip, starts_with_lit, string_of, strip_prefix_lit, strip_suffix_lit, substring, trim};

verus! {

pub struct AsciiDocParser;

impl Parser for AsciiDocParser {
    fn parse(&self, input: &str) -> (r: Result<Document, ParseError>)
        ensures
            r matches Err(e) ==> error_is(e, stall_detail()),
            input@.len() == 0 ==> (r matches Ok(d) && d.children@.len() == 0),
            one_plain_line(input@) ==> (r matches Ok(d) && plain_paragraph(d.children@, line_body(input@))),
    {
        let text = chars_of(input);
        match parse_asciidoc(&text) {
            Ok(children) => Ok(Document { children }),
            Err(e) => Err(e),
        }
    }
}

/// The detail of the error reported where reading makes no progress.
pub open spec fn stall_detail() -> Seq<char> {
    "AsciiDoc input makes no progress at a block"@
}

fn stalled() -> (e: ParseError)
    ensures
        error_is(e, stall_detail()),
{
    ParseError::invalid("AsciiDoc input makes no progress at a block")
}

/// Parses a whole AsciiDoc text into blocks.
pub(crate) fn parse_asciidoc(input: &Vec<char>) -> (r: Result<Vec<Block>, ParseError>)
    ensures
        r matches Err(e) ==> error_is(e, stall_detail()),
        input@.len() == 0 ==> (r matches Ok(b) && b@.len() == 0),
        one_plain_line(input@) ==> reads_as_plain_paragraph(r, line_body(input@)),
    decreases input@.len(), 2nat,
{
    let mut cur = LineCursor::new(input);
    proof {
        if one_plain_line(input@) {
            let l = line_body(input@);
            if plain_line(input@) {
                assert(l == input@);
            } else {
                assert(input@ =~= l.push('\n'));
            }
            lemma_plain_line(l);
            assert(views(cur.lines@) == seq![l]);
            assert(cur.lines@.len() == 1);
            assert(views(cur.lines@)[0] == cur.lines@[0]@);
        }
    }
    assert(crate::text::views(cur.lines@).len() == cur.lines@.len());
    assert(input@.len() == 0 ==> crate::text::lines_spec(input@).len() == 0);
    parse_blocks(&mut cur, input.len())
}

/// What a plain line is not in AsciiDoc: it starts no block and holds no
/// inline markup.
proof fn lemma_plain_line(l: Seq<char>)
    requires
        plain_line(l),
    ensures
        trim_spec(l) == l,
        !has_mark(l),
        l[0] != '=' && l[0] != '_' && l[0] != '*' && l[0] != '.' && l[0] != '[',
        l != "'''"@,
        l != "----"@,
        l != "|==="@,
        !has_prefix(l, "[source"@),
        !has_suffix(l, "::"@),
        plain_adoc(l),
        lines_spec(l) == seq![l],
        lines_spec(l.push('\n')) == seq![l],
{
    lemma_plain_line_text(l);
    reveal_strlit("'''");
    reveal_strlit("----");
    reveal_strlit("|===");
    reveal_strlit("[source");
    reveal_strlit("::");
    lemma_prefix_mark(l, "[source"@, 0);
    if has_suffix(l, "::"@) {
        assert(l.subrange(l.len() - 2, l.len() as int)[1] == l[l.len() - 1]);
    }
    if l == "'''"@ || l == "----"@ || l == "|==="@ {
        assert(!plain_char(l[0]));
    }
    assert forall|i: int| 0 <= i < l.len() implies !adoc_markup_char(#[trigger] l[i]) by {
        assert(plain_char(l[i]));
    }
}

/// A run of `c` at least four long and nothing else (a block delimiter).
fn is_delimiter_run(t: &Vec<char>, c: char) -> (b: bool)
    ensures
        b ==> t@.len() > 0 && t@[0] == c,
{
    t.len() > 0 && all_eq(t, c) && byte_len(t) >= 4
}

/// The marker depth of a list line: the number of leading `marker`s when a
/// space follows them, or zero.
fn marker_depth(t: &Vec<char>, marker: char) -> (n: usize)
    ensures
        n <= t@.len(),
        n > 0 ==> n < t@.len(),
        n > 0 ==> t@[0] == marker,
{
    let n = count_leading(t, marker);
    if n >= 1 && n < t.len() && t[n] == ' ' {
        n
    } else {
        0
    }
}

fn parse_blocks(cur: &mut LineCursor, budget: usize) -> (r: Result<Vec<Block>, ParseError>)
    requires
        old(cur).wf(),
    ensures
        final(cur).moved_from(old(cur)),
        r matches Err(e) ==> error_is(e, stall_detail()),
        old(cur).pos >= old(cur).lines.len() ==> (r matches Ok(b) && b@.len() == 0),
        old(cur).pos == 0 && old(cur).lines@.len() == 1 && plain_line(old(cur).lines@[0]@)
            ==> reads_as_plain_paragraph(r, old(cur).lines@[0]@),
    decreases budget, 1nat,
{
    let ghost single = old(cur).pos == 0 && old(cur).lines@.len() == 1 && plain_line(old(cur).lines@[0]@);
    let ghost l0 = if old(cur).lines@.len() > 0 {
        old(cur).lines@[0]@
    } else {
        Seq::<char>::empty()
    };
    let mut blocks: Vec<Block> = Vec::new();
    while !cur.at_end()
        invariant
            cur.moved_from(old(cur)),
            old(cur).pos >= old(cur).lines.len() ==> blocks@.len() == 0,
            single == (old(cur).pos == 0 && old(cur).lines@.len() == 1 && plain_line(old(cur).lines@[0]@)),
            single ==> l0 == old(cur).lines@[0]@,
            single ==> (cur.pos == 0 && blocks@.len() == 0) || (cur.pos == 1 && plain_paragraph(blocks@, l0)),
        decreases cur.lines.len() - cur.pos,
    {
        let before = cur.pos;
        let line = cur.line();
        proof {
            if single {
                lemma_plain_line(l0);
            }
        }
        let t = trim(&line);
        if t.len() == 0 {
            cur.pos += 1;
            continue;
        }
        if let Some(b) = try_parse_heading(cur, &t) {
            blocks.push(b);
            continue;
        }
        if eq_lit(&t, "'''") {
            blocks.push(Block::HorizontalRule);
            cur.pos += 1;
            continue;
        }
        if starts_with_lit(&t, "[source") && last_is(&t, ']') {
            blocks.push(parse_source_block(cur));
            continue;
        }
        if eq_lit(&t, "----") {
            blocks.push(parse_listing_block(cur));
            continue;
        }
        if is_delimiter_run(&t, '_') {
            match parse_blockquote(cur, budget) {
                Ok(b) => blocks.push(b),
                Err(e) => return Err(e),
            }
            continue;
        }
        if eq_lit(&t, "|===") {
            blocks.push(parse_table(cur));
            continue;
        }
        let b = if marker_depth(&t, '*') > 0 {
            Some(parse_unordered_list(cur, 1, Vec::new()))
        } else if marker_depth(&t, '.') > 0 {
            Some(parse_ordered_list(cur, 1, Vec::new()))
        } else if ends_with_lit(&t, "::") {
            Some(parse_description_list(cur))
        } else if first_is(&t, '[') && last_is(&t, ']') {
            cur.pos += 1;
            None
        } else {
            Some(parse_paragraph(cur))
        };
        if let Some(b) = b {
            blocks.push(b);
        }
        if cur.pos == before {
            return Err(stalled());
        }
    }
    Ok(blocks)
}

fn try_parse_heading(cur: &mut LineCursor, t: &Vec<char>) -> (r: Option<Block>)
    requires
        old(cur).wf(),
        old(cur).pos < old(cur).lines.len(),
    ensures
        final(cur).moved_from(old(cur)),
        r is Some ==> final(cur).pos == old(cur).pos + 1,
        r is None ==> final(cur).pos == old(cur).pos,
        ({
            let level = leading_spec(t@, '=');
            let rest = t@.subrange(level as int, t@.len() as int);
            (r is Some) == (1 <= level <= 6 && rest.len() > 0 && rest[0] == ' ') && (r matches Some(b)
                ==> (b matches Block::Heading { level: l, .. } && l == level))
        }),
{
    if !first_is(t, '=') {
        return None;
    }
    let level = count_leading(t, '=');
    if level > 6 {
        return None;
    }
    let rest = skip(t, level);
    if !first_is(&rest, ' ') {
        return None;
    }
    let text = trim(&rest);
    cur.pos += 1;
    Some(Block::Heading { level: level as u8, content: adoc_inlines(&text) })
}

/// Collects lines up to a `----` line, which is consumed.
/// The index of the first `----` line from `k` on, or the number of lines.
pub open spec fn dashes_from(lines: Seq<Seq<char>>, k: int) -> int
    decreases lines.len() - k,
{
    if k < 0 || k >= lines.len() {
        lines.len() as int
    } else if trim_spec(lines[k]) == "----"@ {
        k
    } else {
        dashes_from(lines, k + 1)
    }
}

/// The line after a listing body that starts at `k`: after its closing `----`,
/// or the end.
pub open spec fn after_dashes(lines: Seq<Seq<char>>, k: int) -> int {
    let e = dashes_from(lines, k);
    if e < lines.len() {
        e + 1
    } else {
        lines.len() as int
    }
}

/// The language of a `[source,lang]` line: what follows the first comma,
/// without the closing bracket, trimmed, when not empty.
pub open spec fn source_language(attr: Seq<char>) -> Option<Seq<char>> {
    match index_of_char(attr, ',') {
        Some(c) => if attr.len() >= 1 && c + 1 <= attr.len() - 1 {
            let l = trim_spec(attr.subrange(c + 1, attr.len() - 1));
            if l.len() > 0 {
                Some(l)
            } else {
                None
            }
        } else {
            None
        },
        None => None,
    }
}

/// Where the body of a source block at line `p` starts: after the `[source]`
/// line and the `----` line that may follow it.
pub open spec fn source_body_start(lines: Seq<Seq<char>>, p: int) -> int {
    if p + 1 < lines.len() && trim_spec(lines[p + 1]) == "----"@ {
        p + 2
    } else {
        p + 1
    }
}

fn collect_until_dashes(cur: &mut LineCursor) -> (content: Vec<Vec<char>>)
    requires
        old(cur).wf(),
    ensures
        final(cur).moved_from(old(cur)),
        views(content@) == views(old(cur).lines@).subrange(
            old(cur).pos as int,
            dashes_from(views(old(cur).lines@), old(cur).pos as int),
        ),
        final(cur).pos == after_dashes(views(old(cur).lines@), old(cur).pos as int),
{
    let ghost ls = views(cur.lines@);
    let ghost start = cur.pos as int;
    let mut content: Vec<Vec<char>> = Vec::new();
    let mut closed = false;
    assert(ls.subrange(start, start) =~= Seq::<Seq<char>>::empty());
    while !closed && !cur.at_end()
        invariant
            cur.moved_from(old(cur)),
            ls == views(cur.lines@),
            ls.len() == cur.lines@.len(),
            start == old(cur).pos,
            views(content@) == ls.subrange(start, cur.pos as int),
            dashes_from(ls, start) == dashes_from(ls, cur.pos as int),
            closed ==> cur.pos < ls.len() && dashes_from(ls, cur.pos as int) == cur.pos,
        decreases cur.lines.len() - cur.pos, if closed {
            0int
        } else {
            1int
        },
    {
        let l = cur.line();
        assert(l@ == ls[cur.pos as int]);
        if eq_lit(&trim(&l), "----") {
            closed = true;
        } else {
            let ghost before = content@;
            content.push(l);
            assert(views(content@) =~= views(before).push(ls[cur.pos as int]));
            cur.pos += 1;
            assert(ls.subrange(start, cur.pos as int) =~= ls.subrange(start, cur.pos - 1).push(
                ls[cur.pos - 1],
            ));
        }
    }
    if closed {
        cur.pos += 1;
    }
    content
}

/// Reads a `[source,lang]` block: its language, and the lines up to the
/// closing `----`.
fn parse_source_block(cur: &mut LineCursor) -> (b: Block)
    requires
        old(cur).wf(),
        old(cur).pos < old(cur).lines.len(),
    ensures
        final(cur).moved_from(old(cur)),
        final(cur).pos > old(cur).pos,
        ({
            let ls = views(old(cur).lines@);
            let s = source_body_start(ls, old(cur).pos as int);
            &&& final(cur).pos == after_dashes(ls, s)
            &&& is_code_block(
                b,
                source_language(trim_spec(ls[old(cur).pos as int])),
                join_spec(ls.subrange(s, dashes_from(ls, s)), "\n"@),
            )
        }),
{
    let ghost ls = views(cur.lines@);
    let ghost p = cur.pos as int;
    let attr = cur.trimmed();
    assert(attr@ == trim_spec(ls[p]));
    let mut language: Option<String> = None;
    match find_char(&attr, ',') {
        Some(comma) => {
            proof {
                lemma_index_of_char_unique(attr@, ',', comma as int);
            }
            if attr.len() >= 1 && comma + 1 <= attr.len() - 1 {
                let lang = trim(&substring(&attr, comma + 1, attr.len() - 1));
                if lang.len() > 0 {
                    language = Some(string_of(&lang));
                }
            }
        },
        None => {
            proof {
                lemma_index_of_char_unique(attr@, ',', attr@.len() as int);
            }
        },
    }
    cur.pos += 1;
    if !cur.at_end() && eq_lit(&cur.trimmed(), "----") {
        cur.pos += 1;
    }
    assert(cur.pos == source_body_start(ls, p));
    let content = collect_until_dashes(cur);
    Block::CodeBlock { language, content: string_of(&join(&content, "\n")) }
}

/// Reads a `----` listing block up to its closing `----`.
fn parse_listing_block(cur: &mut LineCursor) -> (b: Block)
    requires
        old(cur).wf(),
        old(cur).pos < old(cur).lines.len(),
    ensures
        final(cur).moved_from(old(cur)),
        final(cur).pos > old(cur).pos,
        final(cur).pos == after_dashes(views(old(cur).lines@), old(cur).pos + 1),
        is_code_block(
            b,
            None,
            join_spec(
                views(old(cur).lines@).subrange(
                    old(cur).pos + 1,
                    dashes_from(views(old(cur).lines@), old(cur).pos + 1),
                ),
                "\n"@,
            ),
        ),
{
    cur.pos += 1;
    let content = collect_until_dashes(cur);
    Block::CodeBlock { language: None, content: string_of(&join(&content, "\n")) }
}

fn parse_blockquote(cur: &mut LineCursor, budget: usize) -> (r: Result<Block, ParseError>)
    requires
        old(cur).wf(),
        old(cur).pos < old(cur).lines.len(),
    ensures
        final(cur).moved_from(old(cur)),
        final(cur).pos > old(cur).pos,
        r matches Err(e) ==> error_is(e, stall_detail()),
    decreases budget, 0nat,
{
    cur.pos += 1;
    let mut inner: Vec<Vec<char>> = Vec::new();
    while !cur.at_end()
        invariant
            cur.moved_from(old(cur)),
            cur.pos > old(cur).pos,
        decreases cur.lines.len() - cur.pos,
    {
        let l = cur.line();
        if is_delimiter_run(&trim(&l), '_') {
            cur.pos += 1;
            break;
        }
        inner.push(l);
        cur.pos += 1;
    }
    let text = join(&inner, "\n");
    if text.len() >= budget {
        return Err(stalled());
    }
    match parse_asciidoc(&text) {
        Ok(children) => Ok(Block::BlockQuote { children }),
        Err(e) => Err(e),
    }
}

/// Reads a cell span prefix (`2+`, `.3+`, `2.3+`) at the start of `s`:
/// column span, row span, and the index where the rest begins.
/// The end of the run of ASCII digits from `i`.
pub open spec fn digits_end(s: Seq<char>, i: int) -> int
    decreases s.len() - i,
{
    if 0 <= i < s.len() && is_digit_spec(s[i]) {
        digits_end(s, i + 1)
    } else {
        i
    }
}

/// A span number read from `d`, or 1 where it does not fit in `u32`.
pub open spec fn span_number(d: Seq<char>) -> u32 {
    match parse_unsigned_spec(d, 4294967295) {
        Some(n) => n as u32,
        None => 1,
    }
}

/// The column span, row span and length of the `C.R+` prefix of a table
/// cell (`C+` and `.R+` too); no spans and length 0 where there is none.
pub open spec fn span_prefix_of(s: Seq<char>) -> (u32, u32, int) {
    let c_end = digits_end(s, 0);
    let has_col = c_end > 0;
    let has_dot = c_end < s.len() && s[c_end] == '.';
    let r_end = digits_end(s, c_end + 1);
    if has_dot && r_end == c_end + 1 {
        (1, 1, 0)
    } else {
        let i = if has_dot { r_end } else { c_end };
        let rowspan = if has_dot { span_number(s.subrange(c_end + 1, r_end)) } else { 1u32 };
        let colspan = if has_col { span_number(s.subrange(0, c_end)) } else { 1u32 };
        if i < s.len() && s[i] == '+' && (has_col || has_dot) {
            (colspan, rowspan, i + 1)
        } else {
            (1, 1, 0)
        }
    }
}

/// A run of digits followed by a non-digit ends where the digits end.
proof fn lemma_digits_end(d: Seq<char>, rest: Seq<char>, i: int)
    requires
        0 <= i <= d.len(),
        crate::text::all_digits(d),
        rest.len() > 0,
        !is_digit_spec(rest[0]),
    ensures
        digits_end(d + rest, i) == d.len(),
    decreases d.len() - i,
{
    if i < d.len() {
        assert((d + rest)[i] == d[i]);
        lemma_digits_end(d, rest, i + 1);
    } else {
        assert((d + rest)[i] == rest[0]);
    }
}

/// A span written by the AsciiDoc writer reads back: for a cell that spans,
/// the `C.R+` prefix written before its text, whatever follows it, gives the
/// cell's column span and row span and is read to its end. (A span of 0 is
/// written as nothing and reads back as 1.)
pub proof fn law_span_prefix_round_trip(cell: TableCell, rest: Seq<char>)
    requires
        cell.spans(),
        cell.colspan >= 1,
        cell.rowspan >= 1,
    ensures
        span_prefix_of(span_prefix(cell) + rest) == (cell.colspan, cell.rowspan, span_prefix(cell).len() as int),
{
    let p = span_prefix(cell);
    let s = p + rest;
    let c = decimal(cell.colspan as nat);
    let r = decimal(cell.rowspan as nat);
    crate::text::lemma_decimal_value(cell.colspan as nat);
    crate::text::lemma_decimal_value(cell.rowspan as nat);
    assert(is_digit_spec(c[0]) && is_digit_spec(r[0]));
    assert(crate::text::unsigned_digits(c) == Some(c));
    assert(crate::text::unsigned_digits(r) == Some(r));
    assert(span_number(c) == cell.colspan);
    assert(span_number(r) == cell.rowspan);
    if cell.colspan > 1 && cell.rowspan > 1 {
        assert(p =~= c + (seq!['.'] + r + seq!['+']));
        assert(s =~= c + (seq!['.'] + r + seq!['+'] + rest));
        lemma_digits_end(c, seq!['.'] + r + seq!['+'] + rest, 0);
        let t = c + seq!['.'];
        assert(s =~= t + (r + (seq!['+'] + rest)));
        lemma_digits_end(r, seq!['+'] + rest, 0);
        lemma_digits_end_shift(t, r + (seq!['+'] + rest), t.len() as int);
        assert(s.subrange(0, c.len() as int) =~= c);
        assert(s.subrange(c.len() + 1int, c.len() + 1int + r.len()) =~= r);
        assert(digits_end(s, 0) == c.len());
        assert(s[c.len() as int] == '.');
        assert(digits_end(s, c.len() + 1int) == c.len() + 1 + r.len());
        assert(s[c.len() + 1int + r.len()] == '+');
        assert(p.len() == c.len() + 1 + r.len() + 1);
    } else if cell.colspan > 1 {
        assert(p =~= c + seq!['+']);
        assert(s =~= c + (seq!['+'] + rest));
        lemma_digits_end(c, seq!['+'] + rest, 0);
        assert(s.subrange(0, c.len() as int) =~= c);
        assert(digits_end(s, 0) == c.len());
        assert(s[c.len() as int] == '+');
    } else {
        assert(p =~= seq!['.'] + r + seq!['+']);
        assert(s =~= seq!['.'] + (r + (seq!['+'] + rest)));
        assert(digits_end(s, 0) == 0);
        lemma_digits_end(r, seq!['+'] + rest, 0);
        lemma_digits_end_shift(seq!['.'], r + (seq!['+'] + rest), 1);
        assert(s.subrange(1int, 1int + r.len()) =~= r);
        assert(s[0] == '.');
        assert(digits_end(s, 1) == 1 + r.len());
        assert(s[1int + r.len()] == '+');
    }
}

/// Reading digits after a prefix `t` is reading them in what follows it.
proof fn lemma_digits_end_shift(t: Seq<char>, u: Seq<char>, i: int)
    requires
        t.len() <= i <= t.len() + u.len(),
    ensures
        digits_end(t + u, i) == digits_end(u, i - t.len()) + t.len(),
    decreases t.len() + u.len() - i,
{
    if i < t.len() + u.len() {
        assert((t + u)[i] == u[i - t.len()]);
        lemma_digits_end_shift(t, u, i + 1);
    }
}

pub(crate) fn parse_cell_span_prefix(s: &Vec<char>) -> (r: (u32, u32, usize))
    ensures
        r.2 <= s@.len(),
        (r.0, r.1, r.2 as int) == span_prefix_of(s@),
{
    let mut i: usize = 0;
    let mut colspan: u32 = 1;
    let mut rowspan: u32 = 1;
    while i < s.len() && is_digit(s[i])
        invariant
            i <= s.len(),
            digits_end(s@, 0) == digits_end(s@, i as int),
        decreases s.len() - i,
    {
        i += 1;
    }
    let has_col = i > 0;
    let col_end = i;
    let mut has_dot = false;
    if i < s.len() && s[i] == '.' {
        has_dot = true;
        i += 1;
        let row_start = i;
        while i < s.len() && is_digit(s[i])
            invariant
                row_start <= i <= s.len(),
                digits_end(s@, row_start as int) == digits_end(s@, i as int),
            decreases s.len() - i,
        {
            i += 1;
        }
        if i > row_start {
            if let Some(n) = parse_unsigned(&substring(s, row_start, i), 4294967295) {
                rowspan = n as u32;
            }
            assert(rowspan == span_number(s@.subrange(row_start as int, i as int)));
        } else {
            return (1, 1, 0);
        }
    }
    if i < s.len() && s[i] == '+' {
        if has_col {
            if let Some(n) = parse_unsigned(&substring(s, 0, col_end), 4294967295) {
                colspan = n as u32;
            }
            assert(colspan == span_number(s@.subrange(0, col_end as int)));
        }
        if !has_col && !has_dot {
            return (1, 1, 0);
        }
        return (colspan, rowspan, i + 1);
    }
    (1, 1, 0)
}

/// Whether a span prefix followed by `|` starts at index `j` of `chars`.
fn span_prefix_at(chars: &Vec<char>, j: usize) -> (r: Option<(u32, u32, usize)>)
    ensures
        match r {
            Some((_, _, k)) => j < k && k < chars@.len() && chars@[k as int] == '|',
            None => true,
        },
{
    if j > chars.len() {
        return None;
    }
    let seg = skip(chars, j);
    let (cs, rs, rest) = parse_cell_span_prefix(&seg);
    if (cs > 1 || rs > 1) && rest < seg.len() && seg[rest] == '|' && rest > 0 {
        Some((cs, rs, j + rest))
    } else {
        None
    }
}

fn parse_table_row(line: &Vec<char>) -> Vec<TableCell> {
    let mut cells: Vec<TableCell> = Vec::new();
    let n = line.len();
    let mut i: usize = 0;
    while i < n
        invariant
            n == line@.len(),
            i <= n,
        decreases n + 1 - i,
    {
        let ghost i0 = i;
        while i < n && is_ws(line[i])
            invariant
                n == line@.len(),
                i0 <= i <= n,
            decreases n - i,
        {
            i += 1;
        }
        if i >= n {
            break;
        }
        let mut colspan: u32 = 1;
        let mut rowspan: u32 = 1;
        match span_prefix_at(line, i) {
            Some((cs, rs, k)) => {
                colspan = cs;
                rowspan = rs;
                i = k;
            },
            None => {
                if line[i] != '|' {
                    i += 1;
                    continue;
                }
            },
        }
        i += 1;
        let content_start = i;
        let mut j = i;
        while j < n && line[j] != '|' && span_prefix_at(line, j).is_none()
            invariant
                content_start <= j,
                n == line@.len(),
            decreases n - j,
        {
            j += 1;
        }
        let mut content_end = if j < n {
            j
        } else {
            n
        };
        if content_end < content_start {
            content_end = content_start;
        }
        let content = trim(&substring(line, content_start, content_end));
        cells.push(TableCell::with_span(adoc_inlines(&content), colspan, rowspan));
        if content_end <= i - 1 {
            break;
        }
        i = content_end;
    }
    cells
}

fn parse_table(cur: &mut LineCursor) -> (b: Block)
    requires
        old(cur).wf(),
        old(cur).pos < old(cur).lines.len(),
    ensures
        final(cur).moved_from(old(cur)),
        final(cur).pos > old(cur).pos,
{
    cur.pos += 1;
    let mut all_rows: Vec<Vec<TableCell>> = Vec::new();
    while !cur.at_end()
        invariant
            cur.moved_from(old(cur)),
            cur.pos > old(cur).pos,
        decreases cur.lines.len() - cur.pos,
    {
        let t = cur.trimmed();
        if eq_lit(&t, "|===") {
            cur.pos += 1;
            break;
        }
        if t.len() == 0 {
            cur.pos += 1;
            continue;
        }
        if first_is(&t, '|') || span_prefix_at(&t, 0).is_some() {
            all_rows.push(parse_table_row(&t));
        }
        cur.pos += 1;
    }
    let mut headers: Vec<TableCell> = Vec::new();
    if all_rows.len() > 0 {
        headers = all_rows.remove(0);
    }
    let alignments = default_alignments(headers.len());
    Block::Table { headers, alignments, rows: all_rows }
}

/// Continues an unordered list at marker depth `depth`, after the items
/// already read.
fn parse_unordered_list(cur: &mut LineCursor, depth: usize, items0: Vec<ListItem>) -> (b: Block)
    requires
        old(cur).wf(),
    ensures
        final(cur).moved_from(old(cur)),
    decreases old(cur).lines.len() - old(cur).pos, usize::MAX - depth,
{
    let mut items = items0;
    while !cur.at_end()
        invariant
            cur.moved_from(old(cur)),
        decreases cur.lines.len() - cur.pos,
    {
        let t = cur.trimmed();
        if t.len() == 0 {
            let saved = cur.pos;
            cur.pos += 1;
            while !cur.at_end() && is_blank(&cur.lines[cur.pos])
                invariant
                    cur.moved_from(old(cur)),
                    cur.pos > saved,
                decreases cur.lines.len() - cur.pos,
            {
                cur.pos += 1;
            }
            if !cur.at_end() {
                let next = cur.trimmed();
                let d = marker_depth(&next, '*');
                if d > 0 && d >= depth {
                    continue;
                }
            }
            cur.pos = saved;
            break;
        }
        let stars = marker_depth(&t, '*');
        if stars > 0 {
            if stars < depth {
                break;
            }
            if stars > depth {
                let before = cur.pos;
                let sub = parse_unordered_list(cur, stars, Vec::new());
                push_to_last_item(&mut items, sub);
                if cur.pos == before {
                    break;
                }
                continue;
            }
            let text = skip(&t, stars + 1);
            items.push(paragraph_item(adoc_inlines(&text)));
            cur.pos += 1;
        } else {
            let dots = marker_depth(&t, '.');
            if dots > 0 {
                let text = skip(&t, dots + 1);
                let mut first: Vec<ListItem> = Vec::new();
                first.push(paragraph_item(adoc_inlines(&text)));
                cur.pos += 1;
                let sub = parse_ordered_list(cur, dots, first);
                push_to_last_item(&mut items, sub);
            } else {
                break;
            }
        }
    }
    Block::UnorderedList { items }
}

/// Continues an ordered list at marker depth `depth`, after the items already
/// read.
fn parse_ordered_list(cur: &mut LineCursor, depth: usize, items0: Vec<ListItem>) -> (b: Block)
    requires
        old(cur).wf(),
    ensures
        final(cur).moved_from(old(cur)),
    decreases old(cur).lines.len() - old(cur).pos, usize::MAX - depth,
{
    let mut items = items0;
    while !cur.at_end()
        invariant
            cur.moved_from(old(cur)),
        decreases cur.lines.len() - cur.pos,
    {
        let t = cur.trimmed();
        if t.len() == 0 {
            let saved = cur.pos;
            cur.pos += 1;
            while !cur.at_end() && is_blank(&cur.lines[cur.pos])
                invariant
                    cur.moved_from(old(cur)),
                    cur.pos > saved,
                decreases cur.lines.len() - cur.pos,
            {
                cur.pos += 1;
            }
            if !cur.at_end() {
                let next = cur.trimmed();
                let d = marker_depth(&next, '.');
                if d > 0 && d >= depth {
                    continue;
                }
            }
            cur.pos = saved;
            break;
        }
        let dots = marker_depth(&t, '.');
        if dots > 0 {
            if dots < depth {
                break;
            }
            if dots > depth {
                let before = cur.pos;
                let sub = parse_ordered_list(cur, dots, Vec::new());
                push_to_last_item(&mut items, sub);
                if cur.pos == before {
                    break;
                }
                continue;
            }
            let text = skip(&t, dots + 1);
            items.push(paragraph_item(adoc_inlines(&text)));
            cur.pos += 1;
        } else {
            let stars = marker_depth(&t, '*');
            if stars > 0 {
                let text = skip(&t, stars + 1);
                let mut first: Vec<ListItem> = Vec::new();
                first.push(paragraph_item(adoc_inlines(&text)));
                cur.pos += 1;
                let sub = parse_unordered_list(cur, stars, first);
                push_to_last_item(&mut items, sub);
            } else {
                break;
            }
        }
    }
    Block::OrderedList { start: 1, items }
}

fn parse_description_list(cur: &mut LineCursor) -> (b: Block)
    requires
        old(cur).wf(),
    ensures
        final(cur).moved_from(old(cur)),
{
    let mut items: Vec<DescriptionItem> = Vec::new();
    while !cur.at_end()
        invariant
            cur.moved_from(old(cur)),
        decreases cur.lines.len() - cur.pos,
    {
        let line = cur.trimmed();
        if !ends_with_lit(&line, "::") || line.len() < 2 {
            break;
        }
        let term = adoc_inlines(&substring(&line, 0, line.len() - 2));
        cur.pos += 1;
        let ghost iter_start = cur.pos;
        let mut def_lines: Vec<Vec<char>> = Vec::new();
        while !cur.at_end()
            invariant
                cur.moved_from(old(cur)),
                cur.pos >= iter_start,
                iter_start > old(cur).pos,
            decreases cur.lines.len() - cur.pos,
        {
            let dl = cur.line();
            let dt = trim(&dl);
            if dt.len() == 0 {
                cur.pos += 1;
                break;
            }
            if ends_with_lit(&dt, "::") && !first_is(&dl, ' ') && !first_is(&dl, '\t') {
                break;
            }
            def_lines.push(dt);
            cur.pos += 1;
        }
        let def_text = join(&def_lines, "\n");
        let mut definition: Vec<Block> = Vec::new();
        definition.push(Block::Paragraph { content: adoc_inlines(&def_text) });
        let mut definitions: Vec<Vec<Block>> = Vec::new();
        definitions.push(definition);
        items.push(DescriptionItem { term, definitions });
    }
    Block::DescriptionList { items }
}

fn parse_paragraph(cur: &mut LineCursor) -> (b: Block)
    requires
        old(cur).wf(),
    ensures
        final(cur).moved_from(old(cur)),
        old(cur).pos + 1 == old(cur).lines@.len() && plain_line(old(cur).lines@[old(cur).pos as int]@)
            ==> final(cur).pos == old(cur).lines@.len(),
        old(cur).pos + 1 == old(cur).lines@.len() && plain_line(old(cur).lines@[old(cur).pos as int]@)
            ==> (b matches Block::Paragraph { content } && reads_as_plain_text(content@, old(cur).lines@[old(cur).pos as int]@)),
{
    let ghost single = old(cur).pos + 1 == old(cur).lines@.len() && plain_line(old(cur).lines@[old(cur).pos as int]@);
    let ghost l0 = if old(cur).pos < old(cur).lines@.len() {
        old(cur).lines@[old(cur).pos as int]@
    } else {
        Seq::<char>::empty()
    };
    let mut ls: Vec<Vec<char>> = Vec::new();
    while !cur.at_end()
        invariant
            cur.moved_from(old(cur)),
            single == (old(cur).pos + 1 == old(cur).lines@.len() && plain_line(old(cur).lines@[old(cur).pos as int]@)),
            single ==> l0 == old(cur).lines@[old(cur).pos as int]@,
            single ==> (cur.pos == old(cur).pos && ls@.len() == 0) || (cur.pos == old(cur).pos + 1 && views(ls@) == seq![l0]),
        ensures
            single ==> cur.pos == old(cur).pos + 1 && views(ls@) == seq![l0],
        decreases cur.lines.len() - cur.pos,
    {
        let line = cur.line();
        proof {
            if single {
                lemma_plain_line(l0);
            }
        }
        let t = trim(&line);
        if t.len() == 0 {
            break;
        }
        if first_is(&t, '=') {
            let lv = count_leading(&t, '=');
            if lv < t.len() && t[lv] == ' ' {
                break;
            }
        }
        if eq_lit(&t, "'''") || eq_lit(&t, "----") || starts_with_lit(&t, "[source")
            || is_delimiter_run(&t, '_') || eq_lit(&t, "|===") || marker_depth(&t, '*') > 0
            || marker_depth(&t, '.') > 0 || (first_is(&t, '[') && last_is(&t, ']')) {
            break;
        }
        let ghost ls0 = ls@;
        ls.push(line);
        proof {
            if single {
                assert(views(ls@) =~= views(ls0).push(l0));
            }
        }
        cur.pos += 1;
    }
    let text = join(&ls, "\n");
    proof {
        if single {
            assert(views(ls@)[0] == l0);
            assert(text@ == l0);
            lemma_plain_line(l0);
        }
    }
    Block::Paragraph { content: adoc_inlines(&text) }
}

// ---------------------------------------------------------------------------
// Inline parsing
// ---------------------------------------------------------------------------

/// Parses AsciiDoc inline markup.
/// A character that can start AsciiDoc inline markup, a URL, a macro or the
/// `{nbsp}` reference: `*`, `_`, a backtick, `^`, `~`, `[`, `<`, a newline,
/// `:` or `{`.
pub open spec fn adoc_markup_char(c: char) -> bool {
    c == '*' || c == '_' || c == '`' || c == '^' || c == '~' || c == '[' || c == '<' || c == '\n'
        || c == ':' || c == '{'
}

/// Text in which no character can start inline markup.
pub open spec fn plain_adoc(s: Seq<char>) -> bool {
    forall|i: int| 0 <= i < s.len() ==> !adoc_markup_char(#[trigger] s[i])
}

/// The inlines inside a span.
pub open spec fn span_children(r: Inline) -> Seq<Inline> {
    match r {
        Inline::Italic(c) => c@,
        Inline::Superscript(c) => c@,
        Inline::Subscript(c) => c@,
        _ => Seq::empty(),
    }
}

/// The inline kind that a span between two `d` marks reads as: `^` a
/// superscript, `~` a subscript, `_` an italic.
pub open spec fn marked_kind(r: Inline, d: char) -> bool {
    &&& d == '^' ==> r is Superscript
    &&& d == '~' ==> r is Subscript
    &&& d == '_' ==> r is Italic
}

/// What reading at `p`, a `^`, `~` or `_`, gives when the mark closes before
/// any blank line: the span up to the closing mark, of the mark's kind, its
/// text read as inline markup; reading goes on after the closing mark.
pub open spec fn marked_span_at(chars: Seq<char>, p: int, r: Inline, end: int) -> bool {
    match char_before_blank(chars, p + 1, chars[p]) {
        Some(e) => {
            let text = chars.subrange(p + 1, e);
            &&& end == e + 1
            &&& marked_kind(r, chars[p])
            &&& plain_adoc(text) ==> reads_as_plain_text(span_children(r), text)
        },
        None => true,
    }
}

/// A word between two `d` marks: ASCII letters and digits, at least one.
pub open spec fn marked_word(chars: Seq<char>, d: char, w: Seq<char>) -> bool {
    &&& w.len() > 0
    &&& forall|i: int| 0 <= i < w.len() ==> ascii_alnum(#[trigger] w[i])
    &&& chars == seq![d] + w + seq![d]
}

/// Reading gave one span of the kind of `d` holding the word `w`.
pub open spec fn reads_as_marked(r: Seq<Inline>, d: char, w: Seq<char>) -> bool {
    r.len() == 1 && marked_kind(r[0], d) && reads_as_plain_text(span_children(r[0]), w)
}

/// What is stated of reading AsciiDoc inline markup `chars` as `r`.
pub open spec fn adoc_inline_reading(chars: Seq<char>, r: Seq<Inline>) -> bool {
    &&& no_adjacent_text(r)
    &&& plain_adoc(chars) ==> if chars.len() == 0 {
        r.len() == 0
    } else {
        r.len() == 1 && r[0] is Text && text_of_inline(r[0]) == chars
    }
    &&& forall|d: char, w: Seq<char>|
        #[trigger] marked_word(chars, d, w) && (d == '^' || d == '~' || d == '_') ==> reads_as_marked(r, d, w)
}

proof fn lemma_marked_word(chars: Seq<char>, d: char, w: Seq<char>)
    requires
        marked_word(chars, d, w),
        d == '^' || d == '~' || d == '_',
    ensures
        chars[0] == d,
        char_before_blank(chars, 1, d) == Some(chars.len() - 1),
        chars.subrange(1, chars.len() - 1) == w,
        plain_adoc(w),
        !plain_adoc(chars),
        forall|d2: char, w2: Seq<char>| #[trigger] marked_word(chars, d2, w2) ==> d2 == d && w2 == w,
{
    assert(chars.subrange(1, chars.len() - 1) =~= w);
    assert forall|i: int| 0 <= i < w.len() implies !adoc_markup_char(#[trigger] w[i]) by {
        assert(ascii_alnum(w[i]));
    }
    assert(adoc_markup_char(chars[0]));
    lemma_char_before_blank_run(chars, 1, d);
    assert forall|d2: char, w2: Seq<char>| #[trigger] marked_word(chars, d2, w2) implies d2 == d && w2 == w by {
        assert(chars[0] == d2);
        assert(chars.len() == w2.len() + 2);
        assert(w2 =~= chars.subrange(1, chars.len() - 1));
    }
}

/// A mark that first occurs at the last index, with no newline before it, is
/// found there.
proof fn lemma_char_before_blank_run(chars: Seq<char>, p: int, d: char)
    requires
        1 <= p <= chars.len() - 1,
        chars.last() == d,
        forall|i: int| p <= i < chars.len() - 1 ==> #[trigger] chars[i] != d && chars[i] != '\n',
    ensures
        char_before_blank(chars, p, d) == Some(chars.len() - 1),
    decreases chars.len() - p,
{
    if p < chars.len() - 1 {
        lemma_char_before_blank_run(chars, p + 1, d);
    }
}

/// The values of inlines that read as one text `w` are one text `w`.
proof fn lemma_plain_text_model(c: Seq<Inline>, w: Seq<char>)
    requires
        w.len() > 0,
        reads_as_plain_text(c, w),
    ensures
        inlines_model(c) == seq![InlineModel::Text(w)],
{
    assert(c.drop_last() =~= Seq::<Inline>::empty());
    assert(inlines_model(c.drop_last()) == Seq::<InlineModel>::empty());
    assert(c.last() == c[0]);
    assert(inline_model(c[0]) == InlineModel::Text(w)) by {
        assert(c[0] is Text);
        assert(text_of_inline(c[0]) == w);
    }
    assert(inlines_model(c) =~= seq![InlineModel::Text(w)]);
}

/// A superscript, subscript or italic of one word, written by the AsciiDoc
/// writer as `^w^`, `~w~` or `_w_`, reads back as that same inline: a
/// superscript stays a superscript, a subscript a subscript.
pub proof fn law_marked_word_reads_back(x: Inline, d: char, w: Seq<char>, r: Seq<Inline>)
    requires
        w.len() > 0,
        forall|i: int| 0 <= i < w.len() ==> ascii_alnum(#[trigger] w[i]),
        d == '^' || d == '~' || d == '_',
        marked_kind(x, d),
        reads_as_plain_text(span_children(x), w),
        adoc_inline_reading(crate::formats::asciidoc::emitter::adoc_inline(seq![], x, 0, seq![x]), r),
    ensures
        r.len() == 1,
        inline_model(r[0]) == inline_model(x),
{
    reveal_strlit("^");
    reveal_strlit("~");
    reveal_strlit("_");
    let c = span_children(x);
    assert forall|i: int| 0 <= i < w.len() implies crate::formats::common::plain_char(#[trigger] w[i]) by {
        assert(ascii_alnum(w[i]));
    }
    crate::formats::asciidoc::emitter::lemma_typography_plain(w);
    let m = seq![d];
    assert(c.drop_last() =~= Seq::<Inline>::empty());
    assert(c.last() == c[0]);
    assert(crate::formats::asciidoc::emitter::adoc_inlines(m, c.drop_last(), c) == m);
    assert(crate::formats::asciidoc::emitter::adoc_inline(m, c[0], 0, c) == m + w);
    assert(crate::formats::asciidoc::emitter::adoc_inlines(m, c, c) == m + w);
    let text = crate::formats::asciidoc::emitter::adoc_inline(seq![], x, 0, seq![x]);
    assert(seq![] + "^"@ =~= seq!['^']);
    assert(seq![] + "~"@ =~= seq!['~']);
    assert(seq![] + "_"@ =~= seq!['_']);
    assert(text =~= m + w + m);
    assert(marked_word(text, d, w));
    assert(reads_as_marked(r, d, w));
    lemma_plain_text_model(span_children(r[0]), w);
    lemma_plain_text_model(c, w);
}

pub(crate) fn adoc_inlines(chars: &Vec<char>) -> (r: Vec<Inline>)
    ensures
        adoc_inline_reading(chars@, r@),
    decreases chars@.len(), 3nat,
{
    let ghost marked = exists|d: char, w: Seq<char>|
        #[trigger] marked_word(chars@, d, w) && (d == '^' || d == '~' || d == '_');
    let ghost dw: (char, Seq<char>) = if marked {
        choose|d: char, w: Seq<char>| #[trigger] marked_word(chars@, d, w) && (d == '^' || d == '~' || d == '_')
    } else {
        (' ', Seq::empty())
    };
    proof {
        if marked {
            lemma_marked_word(chars@, dw.0, dw.1);
        }
    }
    let mut result: Vec<Inline> = Vec::new();
    let mut pos: usize = 0;
    while pos < chars.len()
        invariant
            no_adjacent_text(result@),
            pos <= chars.len(),
            marked ==> marked_word(chars@, dw.0, dw.1) && (dw.0 == '^' || dw.0 == '~' || dw.0 == '_'),
            marked ==> (pos == 0 && result@.len() == 0) || (pos == chars.len() && reads_as_marked(result@, dw.0, dw.1)),
            plain_adoc(chars@) ==> (pos == 0 && result@.len() == 0) || (pos == chars.len()
                && chars@.len() > 0 && result@.len() == 1 && result@[0] is Text && text_of_inline(
                result@[0],
            ) == chars@),
        decreases chars.len() - pos,
    {
        let ghost start = pos;
        let inl = adoc_inline(chars, &mut pos);
        proof {
            if marked {
                lemma_marked_word(chars@, dw.0, dw.1);
                assert(start == 0);
                assert(!joins_text(result@, inl));
            }
            if plain_adoc(chars@) {
                assert(start == 0);
                assert(chars@.subrange(0, chars@.len() as int) =~= chars@);
                assert(!joins_text(result@, inl));
            }
        }
        push_merged(&mut result, inl);
        proof {
            if marked {
                assert(result@[0] == inl);
            }
        }
    }
    proof {
        if marked {
            assert forall|d: char, w: Seq<char>|
                #[trigger] marked_word(chars@, d, w) && (d == '^' || d == '~' || d == '_') implies reads_as_marked(result@, d, w) by {
                lemma_marked_word(chars@, dw.0, dw.1);
            }
        }
    }
    result
}

fn single(c: char) -> Inline {
    let mut v: Vec<char> = Vec::new();
    v.push(c);
    Inline::Text(string_of(&v))
}

fn adoc_inline(chars: &Vec<char>, pos: &mut usize) -> (r: Inline)
    requires
        *old(pos) < chars.len(),
    ensures
        *old(pos) < *final(pos) <= chars.len(),
        (forall|j: int| *old(pos) <= j < chars@.len() ==> !adoc_markup_char(#[trigger] chars@[j]))
            ==> *final(pos) == chars.len() && r is Text && text_of_inline(r) == chars@.subrange(
            *old(pos) as int,
            chars@.len() as int,
        ),
        chars@[*old(pos) as int] == '^' || chars@[*old(pos) as int] == '~' || chars@[*old(pos) as int] == '_'
            ==> marked_span_at(chars@, *old(pos) as int, r, *final(pos) as int),
    decreases chars@.len(), 2nat,
{
    let c = chars[*pos];
    if c == '*' {
        parse_bold(chars, pos)
    } else if c == '_' {
        parse_delimited(chars, pos, '_', 1)
    } else if c == '`' {
        parse_inline_code(chars, pos)
    } else if c == '^' {
        parse_delimited(chars, pos, '^', 2)
    } else if c == '~' {
        parse_delimited(chars, pos, '~', 3)
    } else if c == '[' {
        parse_role_or_text(chars, pos)
    } else if c == '<' {
        parse_angle_link(chars, pos)
    } else if c == '\n' {
        let p = *pos;
        *pos = p + 1;
        if p >= 2 && chars[p - 1] == '+' && chars[p - 2] == ' ' {
            Inline::HardLineBreak
        } else {
            Inline::SoftLineBreak
        }
    } else {
        parse_text_or_link(chars, pos)
    }
}

fn parse_bold(chars: &Vec<char>, pos: &mut usize) -> (r: Inline)
    requires
        *old(pos) < chars.len(),
    ensures
        *old(pos) < *final(pos) <= chars.len(),
    decreases chars@.len(), 0nat,
{
    let start = *pos;
    if start + 1 < chars.len() && chars[start + 1] == '_' {
        let delim = chars_of("_*");
        proof {
            reveal_strlit("_*");
        }
        if let Some((content, end)) = until_str(chars, start + 2, &delim) {
            *pos = end;
            return Inline::BoldItalic(adoc_inlines(&content));
        }
    }
    if let Some((content, end)) = until_char(chars, start + 1, '*') {
        *pos = end;
        return Inline::Bold(adoc_inlines(&content));
    }
    *pos = start + 1;
    single('*')
}

/// `_italic_`, `^super^` or `~sub~`, by `kind` 1, 2 or 3.
fn parse_delimited(chars: &Vec<char>, pos: &mut usize, delim: char, kind: u8) -> (r: Inline)
    requires
        *old(pos) < chars.len(),
    ensures
        *old(pos) < *final(pos) <= chars.len(),
        char_before_blank(chars@, *old(pos) + 1, delim) matches Some(e) ==> {
            let text = chars@.subrange(*old(pos) + 1, e);
            &&& *final(pos) == e + 1
            &&& kind == 1 ==> r is Italic
            &&& kind == 2 ==> r is Superscript
            &&& kind == 3 ==> r is Subscript
            &&& plain_adoc(text) ==> reads_as_plain_text(span_children(r), text)
        },
    decreases chars@.len(), 0nat,
{
    let start = *pos;
    if let Some((content, end)) = until_char(chars, start + 1, delim) {
        *pos = end;
        let inner = adoc_inlines(&content);
        return if kind == 1 {
            Inline::Italic(inner)
        } else if kind == 2 {
            Inline::Superscript(inner)
        } else {
            Inline::Subscript(inner)
        };
    }
    *pos = start + 1;
    single(delim)
}

/// Removes `+…+` or `pass:c[…]` passthrough markup from inline code.
pub(crate) fn unescape_code(code: &Vec<char>) -> Vec<char> {
    if first_is(code, '+') && last_is(code, '+') && code.len() >= 2 {
        return substring(code, 1, code.len() - 1);
    }
    if let Some(rest) = strip_prefix_lit(code, "pass:c[") {
        if let Some(inner) = strip_suffix_lit(&rest, "]") {
            return inner;
        }
    }
    copy(code)
}

fn parse_inline_code(chars: &Vec<char>, pos: &mut usize) -> (r: Inline)
    requires
        *old(pos) < chars.len(),
    ensures
        *old(pos) < *final(pos) <= chars.len(),
{
    let start = *pos;
    if start + 1 < chars.len() && chars[start + 1] == '`' {
        let delim = repeat('`', 2);
        if let Some((content, end)) = until_str(chars, start + 2, &delim) {
            *pos = end;
            return Inline::InlineCode(string_of(&unescape_code(&content)));
        }
    }
    let cstart = start + 1;
    let mut p = cstart;
    while p < chars.len() && chars[p] != '`'
        invariant
            cstart <= p <= chars.len(),
        decreases chars.len() - p,
    {
        p += 1;
    }
    if p >= chars.len() {
        *pos = start + 1;
        return single('`');
    }
    let content = substring(chars, cstart, p);
    *pos = p + 1;
    Inline::InlineCode(string_of(&unescape_code(&content)))
}

fn parse_role_or_text(chars: &Vec<char>, pos: &mut usize) -> (r: Inline)
    requires
        *old(pos) < chars.len(),
    ensures
        *old(pos) < *final(pos) <= chars.len(),
    decreases chars@.len(), 0nat,
{
    let start = *pos;
    let role = chars_of("[line-through]#");
    proof {
        reveal_strlit("[line-through]#");
    }
    if matches_at(chars, &role, start) {
        if let Some((content, end)) = until_char(chars, start + role.len(), '#') {
            *pos = end;
            return Inline::Strikethrough(adoc_inlines(&content));
        }
    }
    *pos = start + 1;
    single('[')
}

fn parse_angle_link(chars: &Vec<char>, pos: &mut usize) -> (r: Inline)
    requires
        *old(pos) < chars.len(),
    ensures
        *old(pos) < *final(pos) <= chars.len(),
    decreases chars@.len(), 0nat,
{
    let start = *pos;
    if start + 1 < chars.len() && chars[start + 1] == '<' {
        let cstart = start + 2;
        let mut p = cstart;
        while p < chars.len() && !(chars[p] == '>' && p + 1 < chars.len() && chars[p + 1] == '>')
            invariant
                cstart <= p <= chars.len(),
            decreases chars.len() - p,
        {
            p += 1;
        }
        if p < chars.len() {
            let content = substring(chars, cstart, p);
            *pos = p + 2;
            let mut url: Vec<char> = Vec::new();
            url.push('#');
            return match find_char(&content, ',') {
                Some(comma) => {
                    push_all(&mut url, &substring(&content, 0, comma));
                    let text = trim(&skip(&content, comma + 1));
                    Inline::Link { url: string_of(&url), text: adoc_inlines(&text), title: None }
                },
                None => {
                    push_all(&mut url, &content);
                    let mut text: Vec<Inline> = Vec::new();
                    text.push(Inline::Text(string_of(&content)));
                    Inline::Link { url: string_of(&url), text, title: None }
                },
            };
        }
    }
    *pos = start + 1;
    single('<')
}

/// Whether one of the literal prefixes that start a link or image occurs at
/// index `p`.
fn at_lit(chars: &Vec<char>, p: usize, lit: &str) -> (b: bool)
    ensures
        b == occurs_at(chars@, lit@, p as int),
{
    let l = chars_of(lit);
    matches_at(chars, &l, p)
}

/// The end of a URL that starts at `p`: the first `[` or whitespace.
fn url_end(chars: &Vec<char>, p: usize) -> (e: usize)
    requires
        p <= chars.len(),
    ensures
        p <= e <= chars.len(),
{
    let mut e = p;
    while e < chars.len() && chars[e] != '[' && !is_ws(chars[e])
        invariant
            p <= e <= chars.len(),
        decreases chars.len() - e,
    {
        e += 1;
    }
    e
}

/// Removes one pair of surrounding double quotes.
fn unquote(t: Vec<char>) -> (r: Vec<char>)
    ensures
        r@.len() <= t@.len(),
        r@ == unquoted(t@),
{
    if first_is(&t, '"') && last_is(&t, '"') && t.len() >= 2 {
        substring(&t, 1, t.len() - 1)
    } else {
        t
    }
}

/// Text without markup characters holds no URL or macro: each of them has a
/// `:`.
proof fn lemma_no_macro_in_plain_text(chars: Seq<char>, start: int, p: int)
    requires
        0 <= start <= p,
        forall|j: int| start <= j < chars.len() ==> !adoc_markup_char(#[trigger] chars[j]),
    ensures
        !occurs_at(chars, "http://"@, p),
        !occurs_at(chars, "https://"@, p),
        !occurs_at(chars, "ftp://"@, p),
        !occurs_at(chars, "link:"@, p),
        !occurs_at(chars, "image:"@, p),
{
    reveal_strlit("http://");
    reveal_strlit("https://");
    reveal_strlit("ftp://");
    reveal_strlit("link:");
    reveal_strlit("image:");
    if occurs_at(chars, "http://"@, p) {
        assert(chars.subrange(p, p + 7)[4] == chars[p + 4]);
    }
    if occurs_at(chars, "https://"@, p) {
        assert(chars.subrange(p, p + 8)[5] == chars[p + 5]);
    }
    if occurs_at(chars, "ftp://"@, p) {
        assert(chars.subrange(p, p + 6)[3] == chars[p + 3]);
    }
    if occurs_at(chars, "link:"@, p) {
        assert(chars.subrange(p, p + 5)[4] == chars[p + 4]);
    }
    if occurs_at(chars, "image:"@, p) {
        assert(chars.subrange(p, p + 6)[5] == chars[p + 5]);
    }
}

fn parse_text_or_link(chars: &Vec<char>, pos: &mut usize) -> (r: Inline)
    requires
        *old(pos) < chars.len(),
    ensures
        *old(pos) < *final(pos) <= chars.len(),
        (forall|j: int| *old(pos) <= j < chars@.len() ==> !adoc_markup_char(#[trigger] chars@[j]))
            ==> *final(pos) == chars.len() && r is Text && text_of_inline(r) == chars@.subrange(
            *old(pos) as int,
            chars@.len() as int,
        ),
    decreases chars@.len(), 1nat,
{
    let start = *pos;
    proof {
        if forall|j: int| start <= j < chars@.len() ==> !adoc_markup_char(#[trigger] chars@[j]) {
            lemma_no_macro_in_plain_text(chars@, start as int, start as int);
        }
    }
    if at_lit(chars, start, "image:") {
        return parse_macro(chars, pos, true);
    }
    if at_lit(chars, start, "link:") {
        return parse_macro(chars, pos, false);
    }
    if at_lit(chars, start, "http://") || at_lit(chars, start, "https://") || at_lit(
        chars,
        start,
        "ftp://",
    ) {
        return parse_url_link(chars, pos);
    }
    let ghost plain = forall|j: int| start <= j < chars@.len() ==> !adoc_markup_char(#[trigger] chars@[j]);
    proof {
        reveal_strlit("{nbsp}");
    }
    let mut p = start;
    let mut stop = false;
    while !stop && p < chars.len()
        invariant
            start <= p <= chars.len(),
            plain == (forall|j: int| start <= j < chars@.len() ==> !adoc_markup_char(#[trigger] chars@[j])),
            plain ==> !stop,
        decreases chars.len() - p, if stop {
            0int
        } else {
            1int
        },
    {
        let c = chars[p];
        if c == '*' || c == '_' || c == '`' || c == '^' || c == '~' || c == '[' || c == '<' || c
            == '\n' {
            stop = true;
        } else if at_lit(chars, p, "http://") || at_lit(chars, p, "https://") || at_lit(
            chars,
            p,
            "link:",
        ) || at_lit(chars, p, "image:") {
            proof {
                if plain {
                    lemma_no_macro_in_plain_text(chars@, start as int, p as int);
                }
            }
            stop = true;
        } else {
            p += 1;
        }
    }
    if p == start {
        *pos = start + 1;
        return single(chars[start]);
    }
    *pos = p;
    let text = substring(chars, start, p);
    proof {
        if plain {
            if contains_spec(text@, "{nbsp}"@) {
                let k = choose|k: int| occurs_at(text@, "{nbsp}"@, k);
                assert(text@.subrange(k, k + 6)[0] == text@[k]);
                assert(text@[k] == chars@[start + k]);
                assert(!adoc_markup_char(chars@[start + k]));
            }
        }
    }
    let text = replace_lit_checked(&text, "{nbsp}", "\u{a0}");
    Inline::Text(string_of(&text))
}

/// `str::replace` with a literal pattern known to be nonempty.
fn replace_lit_checked(s: &Vec<char>, from: &str, to: &str) -> (v: Vec<char>)
    ensures
        !contains_spec(s@, from@) ==> v@ == s@,
{
    let f = chars_of(from);
    if f.len() == 0 {
        return copy(s);
    }
    replace_lit(s, from, to)
}

fn parse_url_link(chars: &Vec<char>, pos: &mut usize) -> (r: Inline)
    requires
        *old(pos) < chars.len(),
    ensures
        *old(pos) < *final(pos) <= chars.len(),
    decreases chars@.len(), 0nat,
{
    let start = *pos;
    let e = url_end(chars, start);
    let url = substring(chars, start, e);
    if e < chars.len() && chars[e] == '[' {
        if let Some((text, end)) = bracket_content(chars, e + 1) {
            *pos = end;
            let text = unquote(text);
            return Inline::Link { url: string_of(&url), text: adoc_inlines(&text), title: None };
        }
    }
    *pos = if e > start {
        e
    } else {
        start + 1
    };
    let mut text: Vec<Inline> = Vec::new();
    text.push(Inline::Text(string_of(&url)));
    Inline::Link { url: string_of(&url), text, title: None }
}

/// `image:url[alt,link=…]` when `image`, else `link:url[text]`.
fn parse_macro(chars: &Vec<char>, pos: &mut usize, image: bool) -> (r: Inline)
    requires
        *old(pos) < chars.len(),
    ensures
        *old(pos) < *final(pos) <= chars.len(),
    decreases chars@.len(), 0nat,
{
    let start = *pos;
    let skip_len: usize = if image {
        6
    } else {
        5
    };
    if skip_len <= chars.len() - start {
        let ustart = start + skip_len;
        let e = url_end(chars, ustart);
        let url = substring(chars, ustart, e);
        if e < chars.len() && chars[e] == '[' {
            if let Some((attrs, end)) = bracket_content(chars, e + 1) {
                *pos = end;
                if image {
                    let (alt, link) = parse_image_attrs(&attrs);
                    return Inline::Image {
                        url: string_of(&url),
                        alt: adoc_inlines(&alt),
                        title: None,
                        link: match link {
                            Some(l) => Some(string_of(&l)),
                            None => None,
                        },
                    };
                } else {
                    let text = unquote(attrs);
                    return Inline::Link {
                        url: string_of(&url),
                        text: adoc_inlines(&text),
                        title: None,
                    };
                }
            }
        }
    }
    *pos = start + 1;
    single(if image {
        'i'
    } else {
        'l'
    })
}

/// The alt text and optional `link=` target of an image macro's attributes.
/// `t` without the double quotes around it, where it has them.
pub open spec fn unquoted(t: Seq<char>) -> Seq<char> {
    if t.len() >= 2 && t[0] == '"' && t.last() == '"' {
        t.subrange(1, t.len() - 1)
    } else {
        t
    }
}

/// The alt text and link of an image macro's attributes: a `,link=` splits
/// them at its first occurrence; `link=` at the start is a link alone.
pub open spec fn image_attrs_of(a: Seq<char>) -> (Seq<char>, Option<Seq<char>>) {
    match first_match_from(a, 0, ",link="@) {
        Some(i) => (unquoted(a.subrange(0, i)), Some(a.subrange(i + 6, a.len() as int))),
        None => if first_match_from(a, 0, "link="@) == Some(0int) {
            (unquoted(seq![]), Some(a.subrange(5, a.len() as int)))
        } else {
            (unquoted(a), None)
        },
    }
}

pub(crate) fn parse_image_attrs(attrs: &Vec<char>) -> (r: (Vec<char>, Option<Vec<char>>))
    ensures
        r.0@.len() <= attrs@.len(),
        (r.0@, match r.1 {
            Some(l) => Some(l@),
            None => None,
        }) == image_attrs_of(attrs@),
{
    let mut alt = copy(attrs);
    let mut link: Option<Vec<char>> = None;
    proof {
        reveal_strlit(",link=");
        reveal_strlit("link=");
        lemma_first_match_from(attrs@, ",link="@, 0);
        lemma_first_match_from(attrs@, "link="@, 0);
    }
    if let Some(i) = find_lit(attrs, ",link=") {
        alt = substring(attrs, 0, i);
        link = Some(skip(attrs, i + 6));
    } else if let Some(i) = find_lit(attrs, "link=") {
        if i == 0 {
            link = Some(skip(attrs, 5));
            alt = Vec::new();
        }
    }
    (unquote(alt), link)
}

} // verus!
