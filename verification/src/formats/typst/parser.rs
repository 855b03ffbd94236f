//! Typst reader.
use vstd::prelude::*;

use crate::ast::{Block, Document, Inline, ListItem, TableCell};
use crate::error::ParseError;
use crate::format::Parser;
use crate::formats::common::{plain_heading, has_mark, plain_char, plain_line, one_plain_line, line_body, plain_paragraph, reads_as_plain_text, reads_as_plain_paragraph, lemma_prefix_mark, lemma_plain_line_text, first_match_from, lemma_first_match_from, joins_text, text_of_inline, error_is, is_code_block, LineCursor, bracket_content, continue_last_item, default_alignments, no_adjacent_text, paragraph_item, push_merged, push_to_last_item, until_char};
use crate::text::{repeat_spec, lines_spec, utf8_width, is_ws_spec, trim_start_spec, is_digit_spec, index_of_char, lemma_index_of_char, split_spec, parse_unsigned_spec, leading_spec, has_prefix, join_spec, trim_spec, views, byte_len, char_width, chars_of, count_leading, eq_lit, find_char, find_lit, first_is, is_blank, is_digit, is_ws, join, last_is, lines, matches_at, parse_unsigned, skip, split_char, starts_with_lit, string_of, strip_prefix_lit, substring, trim, trim_end_char, trim_start, trim_start_index};

verus! {

pub struct TypstParser;

impl Parser for TypstParser {
    fn parse(&self, input: &str) -> (r: Result<Document, ParseError>)
        ensures
            r matches Err(e) ==> error_is(e, stall_detail()),
            input@.len() == 0 ==> (r matches Ok(d) && d.children@.len() == 0),
            one_plain_line(input@) ==> (r matches Ok(d) && plain_paragraph(d.children@, line_body(input@))),
            forall|k: nat, l: Seq<char>| #[trigger] eq_heading_text(input@, k, l) ==> (r matches Ok(d) && plain_heading(d.children@, k, l)),
    {
        let text = chars_of(input);
        match parse_typst(&text) {
            Ok(children) => Ok(Document { children }),
            Err(e) => Err(e),
        }
    }
}

/// The detail of the error reported where reading makes no progress.
pub open spec fn stall_detail() -> Seq<char> {
    "Typst input makes no progress at a block"@
}

fn stalled() -> (e: ParseError)
    ensures
        error_is(e, stall_detail()),
{
    ParseError::invalid("Typst input makes no progress at a block")
}

/// Parses a whole Typst text into blocks.
pub(crate) fn parse_typst(input: &Vec<char>) -> (r: Result<Vec<Block>, ParseError>)
    ensures
        r matches Err(e) ==> error_is(e, stall_detail()),
        input@.len() == 0 ==> (r matches Ok(b) && b@.len() == 0),
        one_plain_line(input@) ==> reads_as_plain_paragraph(r, line_body(input@)),
        forall|k: nat, l: Seq<char>| #[trigger] eq_heading_text(input@, k, l) ==> (r matches Ok(b) && plain_heading(b@, k, l)),
    decreases input@.len(), 2nat,
{
    let mut cur = LineCursor::new(input);
    proof {
        if exists|k: nat, l: Seq<char>| #[trigger] eq_heading_text(input@, k, l) {
            let (k, l) = choose|k: nat, l: Seq<char>| #[trigger] eq_heading_text(input@, k, l);
            let h = line_body(input@);
            if eq_heading_line(input@, k, l) {
                assert(h == input@);
            } else {
                assert(input@ =~= h.push('\n'));
            }
            lemma_eq_heading_line(h, k, l);
            assert(views(cur.lines@) == seq![h]);
            assert(cur.lines@.len() == 1);
            assert(views(cur.lines@)[0] == cur.lines@[0]@);
            assert(cur.lines@[0]@ == h);
            assert forall|k2: nat, l2: Seq<char>| #[trigger] eq_heading_text(input@, k2, l2) implies k2 == k && l2 == l by {
                lemma_eq_heading_line(h, k2, l2);
            }
        }
        if one_plain_line(input@) {
            let l = line_body(input@);
            if plain_line(input@) {
                assert(l == input@);
            } else {
                assert(input@ =~= l.push('\n'));
            }
            lemma_plain_line(l);
            assert(views(cur.lines@) == seq![l]);
            assert(cur.lines@.len() == 1);
            assert(views(cur.lines@)[0] == cur.lines@[0]@);
        }
    }
    assert(crate::text::views(cur.lines@).len() == cur.lines@.len());
    assert(input@.len() == 0 ==> crate::text::lines_spec(input@).len() == 0);
    parse_blocks(&mut cur, input.len())
}

/// A Typst heading line of `k` equals signs, a space and the plain line `l`.
pub open spec fn eq_heading_line(h: Seq<char>, k: nat, l: Seq<char>) -> bool {
    &&& 1 <= k <= 6
    &&& plain_line(l)
    &&& h == repeat_spec('=', k) + seq![' '] + l
}

/// A text that is one Typst heading line of `k` equals signs and the plain
/// line `l`, with or without a final newline.
pub open spec fn eq_heading_text(s: Seq<char>, k: nat, l: Seq<char>) -> bool {
    eq_heading_line(s, k, l) || (s.len() > 0 && s.last() == '\n' && eq_heading_line(s.drop_last(), k, l))
}

/// The number of equals signs that begin `h`.
pub open spec fn eq_level(h: Seq<char>) -> nat {
    leading_spec(h, '=')
}

/// What follows the equals signs of `h` and the space after them.
pub open spec fn eq_body(h: Seq<char>) -> Seq<char> {
    h.subrange(eq_level(h) as int + 1, h.len() as int)
}

proof fn lemma_leading_equals(k: nat, rest: Seq<char>)
    requires
        rest.len() > 0,
        rest[0] != '=',
    ensures
        leading_spec(repeat_spec('=', k) + rest, '=') == k,
    decreases k,
{
    let h = repeat_spec('=', k) + rest;
    if k > 0 {
        let k1 = (k - 1) as nat;
        assert(h.drop_first() =~= repeat_spec('=', k1) + rest);
        lemma_leading_equals(k1, rest);
    } else {
        assert(h =~= rest);
    }
}

/// What a Typst heading line of plain text is: its own trimmed form, read as
/// a heading and nothing else.
proof fn lemma_eq_heading_line(h: Seq<char>, k: nat, l: Seq<char>)
    requires
        eq_heading_line(h, k, l),
    ensures
        trim_spec(h) == h,
        leading_spec(h, '=') == k,
        h.subrange(k as int, h.len() as int) == seq![' '] + l,
        trim_spec(seq![' '] + l) == l,
        plain_typst(l),
        lines_spec(h) == seq![h],
        lines_spec(h.push('\n')) == seq![h],
        eq_level(h) == k,
        eq_body(h) == l,
{
    lemma_plain_line(l);
    let rest = seq![' '] + l;
    assert(h =~= repeat_spec('=', k) + rest);
    lemma_leading_equals(k, rest);
    assert(h.subrange(k as int, h.len() as int) =~= rest);
    assert(h.subrange(k as int + 1, h.len() as int) =~= l);
    assert(h[0] == '=');
    assert(h.last() == l.last());
    assert(trim_start_spec(h) == h);
    assert(crate::text::trim_end_spec(h) == h);
    assert(rest.drop_first() =~= l);
    assert(trim_start_spec(rest) == trim_start_spec(l));
    lemma_index_of_char(h, '\n');
    assert forall|j: int| 0 <= j < h.len() implies h[j] != '\n' by {
        if j >= k + 1 {
            assert(h[j] == l[j - k - 1]);
            assert(plain_char(l[j - k - 1]));
        }
    }
    let w = h.push('\n');
    lemma_index_of_char(w, '\n');
    assert(w[h.len() as int] == '\n');
    assert(w.subrange(0, h.len() as int) =~= h);
    assert(w.subrange(h.len() as int + 1, w.len() as int) =~= Seq::<char>::empty());
    assert(lines_spec(Seq::<char>::empty()) == Seq::<Seq<char>>::empty());
    assert(seq![h] + Seq::<Seq<char>>::empty() =~= seq![h]);
}

/// What a plain line is not in Typst: it starts no block and holds no
/// inline markup.
proof fn lemma_plain_line(l: Seq<char>)
    requires
        plain_line(l),
    ensures
        trim_spec(l) == l,
        trim_start_spec(l) == l,
        !has_mark(l),
        leading_spec(l, '=') == 0,
        !has_prefix(l, "```"@),
        !has_prefix(l, "#line("@),
        !has_prefix(l, "#quote"@),
        !has_prefix(l, "#table("@),
        !has_prefix(l, "#image("@),
        plain_typst(l),
        lines_spec(l) == seq![l],
        lines_spec(l.push('\n')) == seq![l],
{
    lemma_plain_line_text(l);
    reveal_strlit("```");
    reveal_strlit("#line(");
    reveal_strlit("#quote");
    reveal_strlit("#table(");
    reveal_strlit("#image(");
    lemma_prefix_mark(l, "```"@, 0);
    lemma_prefix_mark(l, "#line("@, 0);
    lemma_prefix_mark(l, "#quote"@, 0);
    lemma_prefix_mark(l, "#table("@, 0);
    lemma_prefix_mark(l, "#image("@, 0);
    assert(leading_spec(l, '=') == 0);
    assert forall|i: int| 0 <= i < l.len() implies !typst_markup_char(#[trigger] l[i]) by {
        assert(plain_char(l[i]));
    }
}

fn sat_add(a: usize, b: usize) -> (r: usize)
    ensures
        a + b <= usize::MAX ==> r == a + b,
        a + b > usize::MAX ==> r == usize::MAX,
{
    if a <= usize::MAX - b {
        a + b
    } else {
        usize::MAX
    }
}

/// The number of bytes of leading whitespace of a line.
fn indent_bytes(line: &Vec<char>) -> usize {
    let k = trim_start_index(line);
    byte_len(&substring(line, 0, k))
}

fn is_unordered_start(line: &Vec<char>) -> (b: bool)
    ensures
        b ==> has_mark(trim_start_spec(line@)),
{
    let t = trim_start(line);
    proof {
        reveal_strlit("- ");
        lemma_prefix_mark(t@, "- "@, 0);
    }
    starts_with_lit(&t, "- ") && !starts_with_lit(&t, "---")
}

fn is_ordered_start(line: &Vec<char>) -> (b: bool)
    ensures
        b ==> has_mark(trim_start_spec(line@)),
{
    let t = trim_start(line);
    proof {
        reveal_strlit("+ ");
        lemma_prefix_mark(t@, "+ "@, 0);
    }
    starts_with_lit(&t, "+ ")
}

fn parse_blocks(cur: &mut LineCursor, budget: usize) -> (r: Result<Vec<Block>, ParseError>)
    requires
        old(cur).wf(),
    ensures
        final(cur).moved_from(old(cur)),
        r matches Err(e) ==> error_is(e, stall_detail()),
        old(cur).pos >= old(cur).lines.len() ==> (r matches Ok(b) && b@.len() == 0),
        old(cur).pos == 0 && old(cur).lines@.len() == 1 && plain_line(old(cur).lines@[0]@)
            ==> reads_as_plain_paragraph(r, old(cur).lines@[0]@),
        old(cur).pos == 0 && old(cur).lines@.len() == 1 && eq_heading_line(
            old(cur).lines@[0]@,
            eq_level(old(cur).lines@[0]@),
            eq_body(old(cur).lines@[0]@),
        ) ==> (r matches Ok(b) && plain_heading(b@, eq_level(old(cur).lines@[0]@), eq_body(old(cur).lines@[0]@))),
    decreases budget, 1nat,
{
    let ghost head = old(cur).pos == 0 && old(cur).lines@.len() == 1 && eq_heading_line(
        old(cur).lines@[0]@,
        eq_level(old(cur).lines@[0]@),
        eq_body(old(cur).lines@[0]@),
    );
    let ghost single = old(cur).pos == 0 && old(cur).lines@.len() == 1 && plain_line(old(cur).lines@[0]@);
    let ghost l0 = if old(cur).lines@.len() > 0 {
        old(cur).lines@[0]@
    } else {
        Seq::<char>::empty()
    };
    let mut blocks: Vec<Block> = Vec::new();
    while !cur.at_end()
        invariant
            cur.moved_from(old(cur)),
            old(cur).pos >= old(cur).lines.len() ==> blocks@.len() == 0,
            single == (old(cur).pos == 0 && old(cur).lines@.len() == 1 && plain_line(old(cur).lines@[0]@)),
            old(cur).lines@.len() > 0 ==> l0 == old(cur).lines@[0]@,
            single ==> (cur.pos == 0 && blocks@.len() == 0) || (cur.pos == 1 && plain_paragraph(blocks@, l0)),
            head == (old(cur).pos == 0 && old(cur).lines@.len() == 1 && eq_heading_line(l0, eq_level(l0), eq_body(l0))),
            head ==> (cur.pos == 0 && blocks@.len() == 0) || (cur.pos == 1 && plain_heading(blocks@, eq_level(l0), eq_body(l0))),
        decreases cur.lines.len() - cur.pos,
    {
        let before = cur.pos;
        let line = cur.line();
        proof {
            if single {
                lemma_plain_line(l0);
            }
            if head {
                lemma_eq_heading_line(l0, eq_level(l0), eq_body(l0));
                lemma_plain_line(eq_body(l0));
            }
        }
        let t = trim(&line);
        if t.len() == 0 {
            cur.pos += 1;
            continue;
        }
        if let Some(b) = try_parse_heading(cur, &t) {
            blocks.push(b);
            continue;
        }
        if starts_with_lit(&t, "```") {
            blocks.push(parse_code_block(cur));
        } else if starts_with_lit(&t, "#line(") {
            blocks.push(Block::HorizontalRule);
            cur.pos += 1;
        } else if starts_with_lit(&t, "#quote") {
            match parse_quote(cur, budget) {
                Ok(b) => blocks.push(b),
                Err(e) => return Err(e),
            }
        } else if starts_with_lit(&t, "#table(") {
            blocks.push(parse_table(cur));
        } else if is_unordered_start(&line) {
            blocks.push(parse_list(cur, indent_bytes(&line), false));
        } else if is_ordered_start(&line) {
            blocks.push(parse_list(cur, indent_bytes(&line), true));
        } else {
            let mut done = false;
            if starts_with_lit(&t, "#image(") {
                if let Some(b) = parse_image_block(cur) {
                    blocks.push(b);
                    done = true;
                }
            }
            if !done {
                blocks.push(parse_paragraph(cur));
            }
        }
        if cur.pos == before {
            return Err(stalled());
        }
    }
    Ok(blocks)
}

fn try_parse_heading(cur: &mut LineCursor, t: &Vec<char>) -> (r: Option<Block>)
    requires
        old(cur).wf(),
        old(cur).pos < old(cur).lines.len(),
    ensures
        final(cur).moved_from(old(cur)),
        r is Some ==> final(cur).pos == old(cur).pos + 1,
        r is None ==> final(cur).pos == old(cur).pos,
        ({
            let level = leading_spec(t@, '=');
            let rest = t@.subrange(level as int, t@.len() as int);
            (r is Some) == (1 <= level <= 6 && rest.len() > 0 && rest[0] == ' ') && (r matches Some(b)
                ==> (b matches Block::Heading { level: l, .. } && l == level))
        }),
        ({
            let text = trim_spec(t@.subrange(leading_spec(t@, '=') as int, t@.len() as int));
            r matches Some(b) ==> (b matches Block::Heading { content, .. } && (plain_typst(text)
                ==> reads_as_plain_text(content@, text)))
        }),
{
    if !first_is(t, '=') {
        return None;
    }
    let level = count_leading(t, '=');
    if level > 6 {
        return None;
    }
    let rest = skip(t, level);
    if !first_is(&rest, ' ') {
        return None;
    }
    let text = trim(&rest);
    cur.pos += 1;
    Some(Block::Heading { level: level as u8, content: typst_inlines(&text) })
}

/// The index of the first line from `k` on that is a closing fence, or the
/// number of lines.
pub open spec fn fence_from(lines: Seq<Seq<char>>, k: int) -> int
    decreases lines.len() - k,
{
    if k < 0 || k >= lines.len() {
        lines.len() as int
    } else if trim_spec(lines[k]) == "```"@ {
        k
    } else {
        fence_from(lines, k + 1)
    }
}

/// The language written after the three backticks of an opening fence.
pub open spec fn fence_language(opening: Seq<char>) -> Option<Seq<char>> {
    let after = if opening.len() >= 3 {
        trim_spec(opening.subrange(3, opening.len() as int))
    } else {
        seq![]
    };
    if after.len() == 0 {
        None
    } else {
        Some(after)
    }
}

/// Reads a fenced raw block: its language, and the lines up to the closing fence.
fn parse_code_block(cur: &mut LineCursor) -> (b: Block)
    requires
        old(cur).wf(),
        old(cur).pos < old(cur).lines.len(),
    ensures
        final(cur).moved_from(old(cur)),
        final(cur).pos > old(cur).pos,
        ({
            let ls = views(old(cur).lines@);
            let p = old(cur).pos as int;
            let k = fence_from(ls, p + 1);
            &&& final(cur).pos == (if k < ls.len() {
                k + 1
            } else {
                ls.len() as int
            })
            &&& is_code_block(
                b,
                fence_language(trim_spec(ls[p])),
                join_spec(ls.subrange(p + 1, k), "\n"@),
            )
        }),
{
    let ghost ls = views(cur.lines@);
    let ghost p = cur.pos as int;
    let line = cur.trimmed();
    assert(line@ == trim_spec(ls[p]));
    let after = if line.len() >= 3 {
        trim(&skip(&line, 3))
    } else {
        Vec::new()
    };
    let language = if after.len() == 0 {
        None
    } else {
        Some(string_of(&after))
    };
    cur.pos += 1;
    let mut content: Vec<Vec<char>> = Vec::new();
    let mut closed = false;
    assert(ls.subrange(p + 1, p + 1) =~= Seq::<Seq<char>>::empty());
    while !closed && !cur.at_end()
        invariant
            cur.moved_from(old(cur)),
            cur.pos > old(cur).pos,
            ls == views(cur.lines@),
            ls.len() == cur.lines@.len(),
            p == old(cur).pos,
            views(content@) == ls.subrange(p + 1, cur.pos as int),
            fence_from(ls, p + 1) == fence_from(ls, cur.pos as int),
            closed ==> cur.pos < ls.len() && fence_from(ls, cur.pos as int) == cur.pos,
        decreases cur.lines.len() - cur.pos, if closed {
            0int
        } else {
            1int
        },
    {
        let l = cur.line();
        assert(l@ == ls[cur.pos as int]);
        if eq_lit(&trim(&l), "```") {
            closed = true;
        } else {
            let ghost before = content@;
            content.push(l);
            assert(views(content@) =~= views(before).push(ls[cur.pos as int]));
            cur.pos += 1;
            assert(ls.subrange(p + 1, cur.pos as int) =~= ls.subrange(p + 1, cur.pos - 1).push(
                ls[cur.pos - 1],
            ));
        }
    }
    if closed {
        cur.pos += 1;
    }
    Block::CodeBlock { language, content: string_of(&join(&content, "\n")) }
}

/// The text between `open` and its matching `close` right after `prefix` at
/// the start of `line`, when `line` starts so and the bracket closes.
/// Where the `close` that matches an earlier `open` stands, scanning from
/// `i` at nesting `depth`.
pub open spec fn nested_close(s: Seq<char>, i: int, depth: int, open: char, close: char) -> Option<int>
    decreases s.len() - i,
{
    if i < 0 || i >= s.len() {
        None
    } else if s[i] == open {
        nested_close(s, i + 1, if depth < usize::MAX { depth + 1 } else { depth }, open, close)
    } else if s[i] == close {
        if depth - 1 == 0 {
            Some(i)
        } else {
            nested_close(s, i + 1, depth - 1, open, close)
        }
    } else {
        nested_close(s, i + 1, depth, open, close)
    }
}

/// What follows `prefix` at the start of `line` between `open` and its
/// matching `close`.
pub open spec fn delimited_after_of(line: Seq<char>, prefix: Seq<char>, open: char, close: char) -> Option<Seq<char>> {
    if !has_prefix(line, prefix) {
        None
    } else {
        let rest = line.subrange(prefix.len() as int, line.len() as int);
        if !(rest.len() > 0 && rest[0] == open) {
            None
        } else {
            match nested_close(rest, 1, 1, open, close) {
                Some(e) => Some(rest.subrange(1, e)),
                None => None,
            }
        }
    }
}

/// The view of an optional text.
pub open spec fn opt_chars(r: Option<Vec<char>>) -> Option<Seq<char>> {
    match r {
        Some(v) => Some(v@),
        None => None,
    }
}

fn delimited_after(line: &Vec<char>, prefix: &str, open: char, close: char) -> (r: Option<Vec<char>>)
    ensures
        r matches Some(c) ==> c@.len() < line@.len(),
        opt_chars(r) == delimited_after_of(line@, prefix@, open, close),
{
    let rest = match strip_prefix_lit(line, prefix) {
        Some(r) => r,
        None => return None,
    };
    if !first_is(&rest, open) {
        return None;
    }
    let mut depth: usize = 1;
    let mut content: Vec<char> = Vec::new();
    let mut i: usize = 1;
    while i < rest.len()
        invariant_except_break
            depth >= 1,
            content@ == rest@.subrange(1, i as int),
            nested_close(rest@, 1, 1, open, close) == nested_close(rest@, i as int, depth as int, open, close),
        invariant
            1 <= i <= rest.len(),
            content@.len() < i,
            rest@.len() > 0 && rest@[0] == open,
        ensures
            depth == 0 ==> i < rest.len() && content@ == rest@.subrange(1, i as int) && nested_close(
                rest@,
                1,
                1,
                open,
                close,
            ) == Some(i as int),
            depth >= 1 ==> nested_close(rest@, 1, 1, open, close) is None,
        decreases rest.len() - i,
    {
        let ch = rest[i];
        if ch == open {
            if depth < usize::MAX {
                depth += 1;
            }
            content.push(ch);
        } else if ch == close {
            depth -= 1;
            if depth == 0 {
                break;
            }
            content.push(ch);
        } else {
            content.push(ch);
        }
        i += 1;
        assert(content@ =~= rest@.subrange(1, i as int));
    }
    if depth == 0 {
        Some(content)
    } else {
        None
    }
}

/// Strips the first `indent` bytes of `l` when they are whitespace and end on
/// a character boundary.
/// Where the text of `l` starts once exactly `indent` bytes of whitespace
/// are taken off, scanning from `k` with `w` bytes taken so far; `None` when
/// a non-whitespace character comes first or the widths overshoot.
pub open spec fn indent_end(l: Seq<char>, k: int, w: int, indent: int) -> Option<int>
    decreases l.len() - k,
{
    if 0 <= k < l.len() && w < indent {
        if !is_ws_spec(l[k]) {
            None
        } else {
            let w2 = if w + utf8_width(l[k]) <= usize::MAX { w + utf8_width(l[k]) } else { usize::MAX as int };
            indent_end(l, k + 1, w2, indent)
        }
    } else if w == indent {
        Some(k)
    } else {
        None
    }
}

fn strip_indent(l: &Vec<char>, indent: usize) -> (r: Option<Vec<char>>)
    ensures
        opt_chars(r) == (match indent_end(l@, 0, 0, indent as int) {
            Some(k) => Some(l@.subrange(k, l@.len() as int)),
            None => None,
        }),
{
    let mut w: usize = 0;
    let mut k: usize = 0;
    while k < l.len() && w < indent
        invariant
            k <= l.len(),
            indent_end(l@, 0, 0, indent as int) == indent_end(l@, k as int, w as int, indent as int),
        decreases l.len() - k,
    {
        if !is_ws(l[k]) {
            return None;
        }
        w = sat_add(w, char_width(l[k]));
        k += 1;
    }
    if w == indent {
        Some(skip(l, k))
    } else {
        None
    }
}

fn parse_quote(cur: &mut LineCursor, budget: usize) -> (r: Result<Block, ParseError>)
    requires
        old(cur).wf(),
        old(cur).pos < old(cur).lines.len(),
    ensures
        final(cur).moved_from(old(cur)),
        final(cur).pos > old(cur).pos,
        r matches Err(e) ==> error_is(e, stall_detail()),
    decreases budget, 0nat,
{
    let line = cur.trimmed();
    if let Some(content) = delimited_after(&line, "#quote", '[', ']') {
        cur.pos += 1;
        if content.len() >= budget {
            return Err(stalled());
        }
        let mut inner = LineCursor::new(&content);
        let children = match parse_blocks(&mut inner, content.len()) {
            Ok(c) => c,
            Err(e) => return Err(e),
        };
        if children.len() == 0 {
            let mut one: Vec<Block> = Vec::new();
            one.push(Block::Paragraph { content: typst_inlines(&content) });
            return Ok(Block::BlockQuote { children: one });
        }
        return Ok(Block::BlockQuote { children });
    }
    if starts_with_lit(&line, "#quote[") {
        cur.pos += 1;
        let mut inner_lines: Vec<Vec<char>> = Vec::new();
        let mut base_indent: Option<usize> = None;
        while !cur.at_end()
            invariant
                cur.moved_from(old(cur)),
                cur.pos > old(cur).pos,
            decreases cur.lines.len() - cur.pos,
        {
            let l = cur.line();
            let lt = trim(&l);
            if eq_lit(&lt, "]") {
                cur.pos += 1;
                break;
            }
            if last_is(&lt, ']') {
                inner_lines.push(trim_end_char(&lt, ']'));
                cur.pos += 1;
                break;
            }
            if lt.len() > 0 && base_indent.is_none() {
                base_indent = Some(indent_bytes(&l));
            }
            let indent = match base_indent {
                Some(n) => n,
                None => 0,
            };
            match strip_indent(&l, indent) {
                Some(rest) => inner_lines.push(rest),
                None => inner_lines.push(lt),
            }
            cur.pos += 1;
        }
        let text = join(&inner_lines, "\n");
        if text.len() >= budget {
            return Err(stalled());
        }
        let mut inner = LineCursor::new(&text);
        return match parse_blocks(&mut inner, text.len()) {
            Ok(children) => Ok(Block::BlockQuote { children }),
            Err(e) => Err(e),
        };
    }
    cur.pos += 1;
    Ok(Block::BlockQuote { children: Vec::new() })
}

fn parse_table(cur: &mut LineCursor) -> (b: Block)
    requires
        old(cur).wf(),
        old(cur).pos < old(cur).lines.len(),
    ensures
        final(cur).moved_from(old(cur)),
        final(cur).pos > old(cur).pos,
{
    let mut text: Vec<char> = Vec::new();
    let mut depth: i64 = 0;
    let mut first = true;
    while !cur.at_end()
        invariant
            cur.moved_from(old(cur)),
            old(cur).pos < cur.lines.len(),
            first ==> cur.pos == old(cur).pos,
            !first ==> cur.pos > old(cur).pos,
        ensures
            cur.moved_from(old(cur)),
            cur.pos > old(cur).pos,
        decreases cur.lines.len() - cur.pos,
    {
        let line = cur.line();
        let mut k: usize = 0;
        while k < line.len()
            invariant
                k <= line.len(),
            decreases line.len() - k,
        {
            let ch = line[k];
            if ch == '(' && depth < i64::MAX {
                depth += 1;
            } else if ch == ')' && depth > i64::MIN {
                depth -= 1;
            }
            text.push(ch);
            k += 1;
        }
        text.push('\n');
        cur.pos += 1;
        first = false;
        if depth <= 0 {
            break;
        }
    }
    table_from_text(&text)
}

/// The table that the text of a `#table(…)` call describes: the first
/// `columns` logical columns of cells are the header row, the rest fill rows
/// of `columns` logical columns.
pub(crate) fn table_from_text(text: &Vec<char>) -> (b: Block)
    ensures
        b is Table,
{
    let columns = table_columns(text);
    let infos = table_cells(text);
    if columns == 0 || infos.len() == 0 {
        return Block::Table { headers: Vec::new(), alignments: Vec::new(), rows: Vec::new() };
    }
    let mut headers: Vec<TableCell> = Vec::new();
    let mut rows: Vec<Vec<TableCell>> = Vec::new();
    let mut col_pos: usize = 0;
    let mut i: usize = 0;
    while i < infos.len()
        invariant
            i <= infos.len(),
            columns > 0,
        decreases infos.len() - i,
    {
        let info = &infos[i];
        let cell = TableCell::with_span(typst_inlines(&info.content), info.colspan, info.rowspan);
        let span = info.colspan as usize;
        if col_pos < columns {
            headers.push(cell);
        } else {
            let logical = col_pos - columns;
            if logical % columns == 0 || rows.len() == 0 {
                rows.push(Vec::new());
            }
            let mut last = rows.pop().unwrap();
            last.push(cell);
            rows.push(last);
        }
        col_pos = sat_add(col_pos, span);
        i += 1;
    }
    Block::Table { headers, alignments: default_alignments(columns), rows }
}

/// The `columns:` argument of a `#table(…)` call: a number, or the number of
/// entries of a parenthesised list; failing both, a guess from the cell count.
/// The end of the run of ASCII digits from `i`.
pub open spec fn digit_end(s: Seq<char>, i: int) -> int
    decreases s.len() - i,
{
    if 0 <= i < s.len() && is_digit_spec(s[i]) {
        digit_end(s, i + 1)
    } else {
        i
    }
}

/// The number of columns that a table's `columns:` argument gives: the
/// entries of a `( … )` list, or a number.
pub open spec fn explicit_columns(text: Seq<char>) -> Option<nat> {
    match first_match_from(text, 0, "columns:"@) {
        Some(idx) => {
            let after = trim_start_spec(text.subrange(idx + 8, text.len() as int));
            if after.len() > 0 && after[0] == '(' {
                match index_of_char(after, ')') {
                    Some(close) => if close >= 1 {
                        Some(split_spec(after.subrange(1, close), ',').len())
                    } else {
                        None
                    },
                    None => None,
                }
            } else {
                parse_unsigned_spec(after.subrange(0, digit_end(after, 0)), (usize::MAX as u64) as nat)
            }
        },
        None => None,
    }
}

pub(crate) fn table_columns(text: &Vec<char>) -> (n: usize)
    ensures
        explicit_columns(text@) matches Some(c) ==> n == c,
{
    proof {
        reveal_strlit("columns:");
        lemma_first_match_from(text@, "columns:"@, 0);
    }
    if let Some(idx) = find_lit(text, "columns:") {
        assert(first_match_from(text@, 0, "columns:"@) == Some(idx as int));
        let after = trim_start(&skip(text, idx + 8));
        proof {
            lemma_index_of_char(after@, ')');
        }
        if first_is(&after, '(') {
            if let Some(close) = find_char(&after, ')') {
                assert(index_of_char(after@, ')') == Some(close as int));
                let inner = substring(&after, 1, close);
                let parts = split_char(&inner, ',');
                assert(views(parts@).len() == parts@.len());
                return parts.len();
            }
        } else {
            let mut k: usize = 0;
            while k < after.len() && is_digit(after[k])
                invariant
                    k <= after.len(),
                    digit_end(after@, 0) == digit_end(after@, k as int),
                decreases after.len() - k,
            {
                k += 1;
            }
            let digits = substring(&after, 0, k);
            if let Some(n) = parse_unsigned(&digits, usize::MAX as u64) {
                return n as usize;
            }
        }
    }
    assert(explicit_columns(text@) is None);
    let n = table_cells(text).len();
    if n >= 2 {
        let mut d: usize = 2;
        while d < n
            invariant
                2 <= d <= n,
                explicit_columns(text@) is None,
            decreases n - d,
        {
            if n % d == 0 {
                return d;
            }
            d += 1;
        }
    }
    n
}

/// One cell of a `#table(…)` call: its text and spans.
pub struct CellInfo {
    pub content: Vec<char>,
    pub colspan: u32,
    pub rowspan: u32,
}

/// The text inside `[ … ]` from index `i` (just after the `[`), nested
/// brackets kept, and the index after the closing bracket; `None` when the
/// bracket does not close.
fn cell_body(chars: &Vec<char>, i: usize) -> (r: (Option<Vec<char>>, usize))
    requires
        i <= chars.len(),
    ensures
        i <= r.1 <= chars.len(),
{
    let mut p = i;
    let mut depth: usize = 1;
    let mut content: Vec<char> = Vec::new();
    while p < chars.len() && depth > 0
        invariant
            i <= p <= chars.len(),
        decreases chars.len() - p,
    {
        let c = chars[p];
        if c == '[' {
            if depth < usize::MAX {
                depth += 1;
            }
            content.push('[');
        } else if c == ']' {
            depth -= 1;
            if depth > 0 {
                content.push(']');
            }
        } else {
            content.push(c);
        }
        p += 1;
    }
    if depth == 0 {
        (Some(trim(&content)), p)
    } else {
        (None, p)
    }
}

/// The colspan and rowspan that the arguments of `table.cell(…)` set.
/// The spans that `colspan: N` and `rowspan: N` arguments set, read in order
/// (a later one wins; a value that is no `u32` changes nothing).
pub open spec fn spans_of(parts: Seq<Seq<char>>) -> (u32, u32)
    decreases parts.len(),
{
    if parts.len() == 0 {
        (1u32, 1u32)
    } else {
        let (c, r) = spans_of(parts.drop_last());
        let p = trim_spec(parts.last());
        if has_prefix(p, "colspan:"@) {
            match parse_unsigned_spec(trim_spec(p.subrange(8, p.len() as int)), 4294967295) {
                Some(n) => (n as u32, r),
                None => (c, r),
            }
        } else if has_prefix(p, "rowspan:"@) {
            match parse_unsigned_spec(trim_spec(p.subrange(8, p.len() as int)), 4294967295) {
                Some(n) => (c, n as u32),
                None => (c, r),
            }
        } else {
            (c, r)
        }
    }
}

fn cell_spans(args: &Vec<char>) -> (r: (u32, u32))
    ensures
        r == spans_of(split_spec(args@, ',')),
{
    proof {
        reveal_strlit("colspan:");
        reveal_strlit("rowspan:");
    }
    let mut colspan: u32 = 1;
    let mut rowspan: u32 = 1;
    let parts = split_char(args, ',');
    let ghost ps = split_spec(args@, ',');
    let mut k: usize = 0;
    while k < parts.len()
        invariant
            k <= parts.len(),
            views(parts@) == ps,
            (colspan, rowspan) == spans_of(ps.subrange(0, k as int)),
        decreases parts.len() - k,
    {
        assert(ps.subrange(0, k + 1).drop_last() =~= ps.subrange(0, k as int));
        let part = trim(&parts[k]);
        assert(part@ == trim_spec(ps[k as int]));
        let ghost prev = (colspan, rowspan);
        proof {
            reveal_strlit("colspan:");
            reveal_strlit("rowspan:");
        }
        if let Some(val) = strip_prefix_lit(&part, "colspan:") {
            let tv = trim(&val);
            assert(tv@ == trim_spec(part@.subrange(8, part@.len() as int)));
            if let Some(n) = parse_unsigned(&tv, 4294967295) {
                assert(n <= 4294967295);
                colspan = n as u32;
                assert(colspan as nat == n as nat);
            }
        } else if let Some(val) = strip_prefix_lit(&part, "rowspan:") {
            let tv = trim(&val);
            assert(tv@ == trim_spec(part@.subrange(8, part@.len() as int)));
            if let Some(n) = parse_unsigned(&tv, 4294967295) {
                assert(n <= 4294967295);
                rowspan = n as u32;
            }
        }
        k += 1;
    }
    assert(ps.subrange(0, k as int) =~= ps);
    (colspan, rowspan)
}

/// The index just after the `columns:` argument (and the commas and
/// whitespace after it) of a `#table(…)` call whose arguments start at `i`.
/// The offset is counted in bytes of the text and added to the character
/// index, as the cells are searched from there.
fn skip_columns_arg(chars: &Vec<char>, i: usize) -> (r: usize)
    requires
        i <= chars.len(),
    ensures
        r >= i,
        first_match_from(chars@.subrange(i as int, chars@.len() as int), 0, "columns:"@) is None ==> r == i,
{
    let remaining = skip(chars, i);
    proof {
        reveal_strlit("columns:");
        lemma_first_match_from(remaining@, "columns:"@, 0);
    }
    let col_idx = match find_lit(&remaining, "columns:") {
        Some(c) => c,
        None => return i,
    };
    assert(first_match_from(remaining@, 0, "columns:"@) == Some(col_idx as int));
    let after_key = skip(&remaining, col_idx + 8);
    let ws = trim_start_index(&after_key);
    let after = skip(&after_key, ws);
    let base = sat_add(
        sat_add(byte_len(&substring(&remaining, 0, col_idx)), 8),
        byte_len(&substring(&after_key, 0, ws)),
    );
    let mut j = i;
    if first_is(&after, '(') {
        match find_char(&after, ')') {
            Some(close) => {
                let off = sat_add(sat_add(base, byte_len(&substring(&after, 0, close))), 1);
                j = sat_add(j, off);
            },
            None => return i,
        }
    } else {
        let mut k: usize = 0;
        while k < after.len() && is_digit(after[k])
            invariant
                k <= after.len(),
            decreases after.len() - k,
        {
            k += 1;
        }
        j = sat_add(j, sat_add(base, k));
    }
    while j < chars.len() && (chars[j] == ',' || is_ws(chars[j]))
        invariant
            j >= i,
            first_match_from(chars@.subrange(i as int, chars@.len() as int), 0, "columns:"@) is Some,
        decreases chars.len() - j,
    {
        j += 1;
    }
    j
}

/// The cells of a `#table(…)` call: `table.cell(…)[…]` with its spans, or
/// plain `[…]`.
pub(crate) fn table_cells(text: &Vec<char>) -> Vec<CellInfo> {
    let mut cells: Vec<CellInfo> = Vec::new();
    let n = text.len();
    let mut i: usize = 0;
    while i < n && text[i] != '('
        invariant
            i <= n,
            n == text.len(),
        decreases n - i,
    {
        i += 1;
    }
    if i >= n {
        return cells;
    }
    i = skip_columns_arg(text, i + 1);
    let cell_lit = chars_of("table.cell(");
    proof {
        reveal_strlit("table.cell(");
    }
    while i < n
        invariant
            n == text.len(),
            cell_lit@.len() == 11,
        decreases n - i,
    {
        if matches_at(text, &cell_lit, i) {
            i += 11;
            let args_start = i;
            let mut depth: usize = 1;
            while i < n
                invariant_except_break
                    depth >= 1,
                invariant
                    args_start <= i <= n,
                    n == text.len(),
                decreases n - i,
            {
                let c = text[i];
                if c == '(' {
                    if depth < usize::MAX {
                        depth += 1;
                    }
                } else if c == ')' {
                    depth -= 1;
                }
                if depth == 0 {
                    break;
                }
                i += 1;
            }
            let (colspan, rowspan) = cell_spans(&substring(text, args_start, i));
            if i >= n {
                break;
            }
            i += 1;
            while i < n && is_ws(text[i])
                invariant
                    args_start < i <= n,
                    n == text.len(),
                decreases n - i,
            {
                i += 1;
            }
            if i < n && text[i] == '[' {
                let (body, end) = cell_body(text, i + 1);
                i = end;
                if let Some(content) = body {
                    cells.push(CellInfo { content, colspan, rowspan });
                }
            }
        } else if text[i] == '[' {
            let (body, end) = cell_body(text, i + 1);
            i = end;
            if let Some(content) = body {
                cells.push(CellInfo { content, colspan: 1, rowspan: 1 });
            }
        } else {
            i += 1;
        }
    }
    cells
}

/// Reads a list whose items start at `base` bytes of indentation: `+ ` items
/// when `ordered`, else `- ` items.
fn parse_list(cur: &mut LineCursor, base: usize, ordered: bool) -> (b: Block)
    requires
        old(cur).wf(),
    ensures
        final(cur).moved_from(old(cur)),
    decreases old(cur).lines.len() - old(cur).pos, usize::MAX - base,
{
    let mut items: Vec<ListItem> = Vec::new();
    while !cur.at_end()
        invariant
            cur.moved_from(old(cur)),
        decreases cur.lines.len() - cur.pos,
    {
        let line = cur.line();
        if is_blank(&line) {
            break;
        }
        let indent = indent_bytes(&line);
        let unordered = is_unordered_start(&line);
        let ord = is_ordered_start(&line);
        if indent > base && (unordered || ord) {
            let before = cur.pos;
            let sub = parse_list(cur, indent, ord && !unordered);
            push_to_last_item(&mut items, sub);
            if cur.pos == before {
                break;
            }
            continue;
        }
        if indent == base && ((ordered && ord) || (!ordered && unordered)) {
            let t = trim_start(&line);
            let text = if t.len() >= 2 {
                skip(&t, 2)
            } else {
                Vec::new()
            };
            items.push(paragraph_item(typst_inlines(&text)));
            cur.pos += 1;
            continue;
        }
        if indent > base && items.len() > 0 {
            continue_last_item(&mut items, typst_inlines(&trim(&line)));
            cur.pos += 1;
            continue;
        }
        break;
    }
    if ordered {
        Block::OrderedList { start: 1, items }
    } else {
        Block::UnorderedList { items }
    }
}

fn parse_image_block(cur: &mut LineCursor) -> (r: Option<Block>)
    requires
        old(cur).wf(),
        old(cur).pos < old(cur).lines.len(),
    ensures
        final(cur).moved_from(old(cur)),
        final(cur).pos == old(cur).pos + 1,
{
    let line = cur.trimmed();
    cur.pos += 1;
    if let Some(args) = delimited_after(&line, "#image", '(', ')') {
        let url = string_arg(&args);
        let mut content: Vec<Inline> = Vec::new();
        content.push(Inline::Image { url: string_of(&url), alt: Vec::new(), title: None, link: None });
        return Some(Block::Paragraph { content });
    }
    None
}

/// The string that a function's arguments start with: the text inside the
/// leading double quotes (to the end when the quote does not close), or the
/// whole trimmed arguments when they do not start with a quote.
pub(crate) fn string_arg(args: &Vec<char>) -> Vec<char> {
    let t = trim(args);
    if first_is(&t, '"') {
        let rest = skip(&t, 1);
        match find_char(&rest, '"') {
            Some(end) => substring(&rest, 0, end),
            None => rest,
        }
    } else {
        t
    }
}

/// Whether a trimmed line is a heading marker line: `=`s followed by a space.
fn heading_like(t: &Vec<char>) -> (b: bool)
    ensures
        b ==> has_mark(t@),
{
    let level = count_leading(t, '=');
    proof {
        if level > 0 && level < t.len() {
            assert(!plain_char(t@[0]));
        }
    }
    level > 0 && level < t.len() && t[level] == ' '
}

fn parse_paragraph(cur: &mut LineCursor) -> (b: Block)
    requires
        old(cur).wf(),
    ensures
        final(cur).moved_from(old(cur)),
        old(cur).pos + 1 == old(cur).lines@.len() && plain_line(old(cur).lines@[old(cur).pos as int]@)
            ==> final(cur).pos == old(cur).lines@.len(),
        old(cur).pos + 1 == old(cur).lines@.len() && plain_line(old(cur).lines@[old(cur).pos as int]@)
            ==> (b matches Block::Paragraph { content } && reads_as_plain_text(content@, old(cur).lines@[old(cur).pos as int]@)),
{
    let ghost single = old(cur).pos + 1 == old(cur).lines@.len() && plain_line(old(cur).lines@[old(cur).pos as int]@);
    let ghost l0 = if old(cur).pos < old(cur).lines@.len() {
        old(cur).lines@[old(cur).pos as int]@
    } else {
        Seq::<char>::empty()
    };
    let mut ls: Vec<Vec<char>> = Vec::new();
    while !cur.at_end()
        invariant
            cur.moved_from(old(cur)),
            single == (old(cur).pos + 1 == old(cur).lines@.len() && plain_line(old(cur).lines@[old(cur).pos as int]@)),
            single ==> l0 == old(cur).lines@[old(cur).pos as int]@,
            single ==> (cur.pos == old(cur).pos && ls@.len() == 0) || (cur.pos == old(cur).pos + 1 && views(ls@) == seq![l0]),
        ensures
            single ==> cur.pos == old(cur).pos + 1 && views(ls@) == seq![l0],
        decreases cur.lines.len() - cur.pos,
    {
        let line = cur.line();
        proof {
            if single {
                lemma_plain_line(l0);
            }
        }
        let t = trim(&line);
        if t.len() == 0 || heading_like(&t) {
            break;
        }
        if starts_with_lit(&t, "```") || starts_with_lit(&t, "#line(") || starts_with_lit(
            &t,
            "#quote",
        ) || starts_with_lit(&t, "#table(") || starts_with_lit(&t, "#image(") {
            break;
        }
        if is_unordered_start(&line) || is_ordered_start(&line) {
            break;
        }
        let ghost ls0 = ls@;
        ls.push(line);
        proof {
            if single {
                assert(views(ls@) =~= views(ls0).push(l0));
            }
        }
        cur.pos += 1;
    }
    let text = join(&ls, "\n");
    proof {
        if single {
            assert(views(ls@)[0] == l0);
            assert(text@ == l0);
            lemma_plain_line(l0);
        }
    }
    Block::Paragraph { content: typst_inlines(&text) }
}

// ---------------------------------------------------------------------------
// Inline parsing
// ---------------------------------------------------------------------------

/// Parses Typst inline markup; adjacent text runs are merged.
/// A character that can start Typst inline markup: `*`, `_`, a backtick, `#`, `\\` or a newline.
pub open spec fn typst_markup_char(c: char) -> bool {
    c == '*' || c == '_' || c == '`' || c == '#' || c == '\\' || c == '\n'
}

fn is_typst_markup(c: char) -> (b: bool)
    ensures
        b == typst_markup_char(c),
{
    c == '*' || c == '_' || c == '`' || c == '#' || c == '\\' || c == '\n'
}

/// Text in which no character can start inline markup.
pub open spec fn plain_typst(s: Seq<char>) -> bool {
    forall|i: int| 0 <= i < s.len() ==> !typst_markup_char(#[trigger] s[i])
}

pub(crate) fn typst_inlines(chars: &Vec<char>) -> (r: Vec<Inline>)
    ensures
        no_adjacent_text(r@),
        plain_typst(chars@) ==> if chars@.len() == 0 {
            r@.len() == 0
        } else {
            r@.len() == 1 && r@[0] is Text && text_of_inline(r@[0]) == chars@
        },
    decreases chars@.len(), 3nat,
{
    let mut result: Vec<Inline> = Vec::new();
    let mut pos: usize = 0;
    while pos < chars.len()
        invariant
            no_adjacent_text(result@),
            pos <= chars.len(),
            plain_typst(chars@) ==> (pos == 0 && result@.len() == 0) || (pos == chars.len()
                && chars@.len() > 0 && result@.len() == 1 && result@[0] is Text && text_of_inline(result@[0]) == chars@),
        decreases chars.len() - pos,
    {
        let ghost start = pos;
        let inl = typst_inline(chars, &mut pos);
        proof {
            if plain_typst(chars@) {
                assert(start == 0);
                assert(chars@.subrange(0, chars@.len() as int) =~= chars@);
                assert(!joins_text(result@, inl));
            }
        }
        push_merged(&mut result, inl);
    }
    result
}

fn single(c: char) -> Inline {
    let mut v: Vec<char> = Vec::new();
    v.push(c);
    Inline::Text(string_of(&v))
}

fn typst_inline(chars: &Vec<char>, pos: &mut usize) -> (r: Inline)
    requires
        *old(pos) < chars.len(),
    ensures
        *old(pos) < *final(pos) <= chars.len(),
        (forall|j: int| *old(pos) <= j < chars@.len() ==> !typst_markup_char(#[trigger] chars@[j]))
            ==> *final(pos) == chars.len() && r is Text && text_of_inline(r) == chars@.subrange(
            *old(pos) as int,
            chars@.len() as int,
        ),
    decreases chars@.len(), 2nat,
{
    let p = *pos;
    let c = chars[p];
    if c == '*' || c == '_' {
        if let Some((content, end)) = until_char(chars, p + 1, c) {
            *pos = end;
            let inner = typst_inlines(&content);
            return if c == '*' {
                Inline::Bold(inner)
            } else {
                Inline::Italic(inner)
            };
        }
        *pos = p + 1;
        single(c)
    } else if c == '`' {
        let mut q = p + 1;
        while q < chars.len() && chars[q] != '`'
            invariant
                p < q <= chars.len(),
            decreases chars.len() - q,
        {
            q += 1;
        }
        if q >= chars.len() {
            *pos = p + 1;
            return single('`');
        }
        *pos = q + 1;
        Inline::InlineCode(string_of(&substring(chars, p + 1, q)))
    } else if c == '#' {
        parse_function_call(chars, pos)
    } else if c == '\\' {
        if p + 1 < chars.len() {
            *pos = p + 2;
            single(chars[p + 1])
        } else {
            *pos = p + 1;
            single('\\')
        }
    } else if c == '\n' {
        *pos = p + 1;
        if p >= 1 && chars[p - 1] == '\\' {
            Inline::HardLineBreak
        } else {
            Inline::SoftLineBreak
        }
    } else {
        let mut q = p;
        while q < chars.len() && !is_typst_markup(chars[q])
            invariant
                p <= q <= chars.len(),
                forall|j: int| p <= j < q ==> !typst_markup_char(#[trigger] chars@[j]),
            decreases chars.len() - q,
        {
            q += 1;
        }
        if q == p {
            *pos = p + 1;
            return single(c);
        }
        *pos = q;
        Inline::Text(string_of(&substring(chars, p, q)))
    }
}

/// The quoted string at index `q` (a `"`): its text and the index after the
/// closing quote.
/// The first index at or after `i` where `c` stands.
pub open spec fn next_char(s: Seq<char>, i: int, c: char) -> Option<int>
    decreases s.len() - i,
{
    if i < 0 || i >= s.len() {
        None
    } else if s[i] == c {
        Some(i)
    } else {
        next_char(s, i + 1, c)
    }
}

/// A quoted string at `q`: the text up to the next quote, and the index
/// after it.
pub open spec fn quoted_of(s: Seq<char>, q: int) -> Option<(Seq<char>, int)> {
    if q < 0 || q >= s.len() || s[q] != '"' {
        None
    } else {
        match next_char(s, q + 1, '"') {
            Some(e) => Some((s.subrange(q + 1, e), e + 1)),
            None => None,
        }
    }
}

fn quoted_at(chars: &Vec<char>, q: usize) -> (r: Option<(Vec<char>, usize)>)
    ensures
        r matches Some((_, e)) ==> q < e <= chars.len(),
        (match r {
            Some((c, e)) => Some((c@, e as int)),
            None => None,
        }) == quoted_of(chars@, q as int),
{
    if q >= chars.len() || chars[q] != '"' {
        return None;
    }
    let mut e = q + 1;
    while e < chars.len() && chars[e] != '"'
        invariant
            q < e <= chars.len(),
            next_char(chars@, q + 1, '"') == next_char(chars@, e as int, '"'),
        decreases chars.len() - e,
    {
        e += 1;
    }
    if e >= chars.len() {
        return None;
    }
    Some((substring(chars, q + 1, e), e + 1))
}

/// The inline that a `#` starts: a known function call, or the `#` itself.
fn parse_function_call(chars: &Vec<char>, pos: &mut usize) -> (r: Inline)
    requires
        *old(pos) < chars.len(),
    ensures
        *old(pos) < *final(pos) <= chars.len(),
    decreases chars@.len(), 1nat,
{
    let p = *pos;
    proof {
        reveal_strlit("#strike[");
        reveal_strlit("#super[");
        reveal_strlit("#sub[");
        reveal_strlit("#link(");
        reveal_strlit("#image(");
        reveal_strlit("#strong[");
        reveal_strlit("#emph[");
    }
    let strike = chars_of("#strike[");
    if matches_at(chars, &strike, p) {
        if let Some((content, end)) = bracket_content(chars, p + 8) {
            *pos = end;
            return Inline::Strikethrough(typst_inlines(&content));
        }
    }
    let sup = chars_of("#super[");
    if matches_at(chars, &sup, p) {
        if let Some((content, end)) = bracket_content(chars, p + 7) {
            *pos = end;
            return Inline::Superscript(typst_inlines(&content));
        }
    }
    let sub = chars_of("#sub[");
    if matches_at(chars, &sub, p) {
        if let Some((content, end)) = bracket_content(chars, p + 5) {
            *pos = end;
            return Inline::Subscript(typst_inlines(&content));
        }
    }
    let link = chars_of("#link(");
    if matches_at(chars, &link, p) {
        if let Some((url, e)) = quoted_at(chars, p + 6) {
            let mut q = e;
            if q < chars.len() && chars[q] == ')' {
                q += 1;
            }
            if q < chars.len() && chars[q] == '[' {
                q += 1;
                if let Some((text, end)) = bracket_content(chars, q) {
                    *pos = end;
                    return Inline::Link {
                        url: string_of(&url),
                        text: typst_inlines(&text),
                        title: None,
                    };
                }
            }
            *pos = q;
            let mut text: Vec<Inline> = Vec::new();
            text.push(Inline::Text(string_of(&url)));
            return Inline::Link { url: string_of(&url), text, title: None };
        }
    }
    let image = chars_of("#image(");
    if matches_at(chars, &image, p) {
        if let Some((url, e)) = quoted_at(chars, p + 7) {
            let mut q = e;
            while q < chars.len() && chars[q] != ')'
                invariant
                    e <= q <= chars.len(),
                decreases chars.len() - q,
            {
                q += 1;
            }
            if q < chars.len() {
                q += 1;
            }
            *pos = q;
            return Inline::Image { url: string_of(&url), alt: Vec::new(), title: None, link: None };
        }
    }
    let strong = chars_of("#strong[");
    if matches_at(chars, &strong, p) {
        if let Some((content, end)) = bracket_content(chars, p + 8) {
            *pos = end;
            return Inline::Bold(typst_inlines(&content));
        }
    }
    let emph = chars_of("#emph[");
    if matches_at(chars, &emph, p) {
        if let Some((content, end)) = bracket_content(chars, p + 6) {
            *pos = end;
            return Inline::Italic(typst_inlines(&content));
        }
    }
    *pos = p + 1;
    single('#')
}

} // verus!
