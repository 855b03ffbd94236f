//! Djot, Org mode and Textile: three lightweight markups read and written by
//! one parser and one writer, which differ by flavor.
use vstd::prelude::*;

use crate::ast::{Block, ColumnAlignment, DescriptionItem, Inline, ListItem, TableCell};
use crate::error::ParseError;
use crate::formats::common::{one_plain_line, line_body, reads_as_plain_text, reads_as_plain_paragraph, plain_paragraph, has_mark, plain_char, plain_line, lemma_prefix_mark, lemma_prefix_head, lemma_without_ws_sub, lemma_plain_line_text, text_of_inline, is_code_block, is_raw_block, LineCursor, default_alignments, ends_with_single_newline, ensure_blank_line, finish_output, finished, no_adjacent_text, paragraph_item, push_merged, push_to_last_item, with_blank_line};
use crate::text::{ascii_lower_char, without_ws, trim_start_spec, is_digit_spec, contains_spec, parse_unsigned_spec, split_spec, trim_end_char_spec, is_ws_spec, lemma_index_of_char_unique, all_eq_spec, all_ws, ascii_lower_spec, has_prefix, has_suffix, index_of_char, join_spec, leading_spec, occurs_at, trim_spec, words_spec, decimal, lines_spec, repeat_seq, repeat_spec, trim_end_spec, views, all_eq, byte_len, chars_of, chars_of_string, contains_lit, copy, count_leading, ends_with_lit, eq_ignore_case_lit, eq_lit, find_char, find_char_from, find_from, first_is, is_blank, is_digit, is_ws, join, last_is, lines, matches_at, parse_unsigned, push_all, push_decimal, push_str, push_string, remove_ws, repeat, repeat_lit, skip, split_char, split_once_lit, split_whitespace, starts_with_lit, string_of, strip_prefix_lit, substring, to_ascii_lower, trim, trim_end, trim_end_char, trim_end_matches_lit, trim_start, trim_start_char, trim_start_matches_lit};

verus! {

#[derive(Clone, Copy, PartialEq, Eq, Structural)]
pub enum Flavor {
    Djot,
    Org,
    Textile,
}

fn stalled() -> ParseError {
    ParseError::invalid("lightweight markup input makes no progress at a block")
}

/// The total length of the lines plus one per line, the largest `usize`
/// once it would pass it.
pub open spec fn weight_of(lines: Seq<Vec<char>>) -> int
    decreases lines.len(),
{
    if lines.len() == 0 {
        0
    } else {
        let w = weight_of(lines.drop_last());
        let l = lines.last()@.len();
        if w <= usize::MAX - l && w + l < usize::MAX {
            w + l + 1
        } else {
            usize::MAX as int
        }
    }
}

/// The total length of the lines plus one per line: the length of the text
/// they were split from, at most.
fn weight(lines: &Vec<Vec<char>>) -> (w: usize)
    ensures
        w == weight_of(lines@),
{
    let mut w: usize = 0;
    let mut k: usize = 0;
    while k < lines.len()
        invariant
            k <= lines.len(),
            w == weight_of(lines@.subrange(0, k as int)),
        decreases lines.len() - k,
    {
        assert(lines@.subrange(0, k + 1).drop_last() =~= lines@.subrange(0, k as int));
        let l = lines[k].len();
        w = if w <= usize::MAX - l && w + l < usize::MAX {
            w + l + 1
        } else {
            usize::MAX
        };
        k += 1;
    }
    assert(lines@.subrange(0, lines@.len() as int) =~= lines@);
    w
}

/// Parses a whole text in the given flavor.
pub(crate) fn parse_document(input: &Vec<char>, flavor: Flavor) -> (r: Result<Vec<Block>, ParseError>)
    ensures
        input@.len() == 0 ==> (r matches Ok(b) && b@.len() == 0),
        one_plain_line(input@) ==> reads_as_plain_paragraph(r, line_body(input@)),
{
    let mut cur = LineCursor::new(input);
    proof {
        if one_plain_line(input@) {
            let l = line_body(input@);
            if plain_line(input@) {
                assert(l == input@);
            } else {
                assert(input@ =~= l.push('\n'));
            }
            lemma_plain_line(l, flavor);
            assert(views(cur.lines@) == seq![l]);
            assert(cur.lines@.len() == 1);
            assert(views(cur.lines@)[0] == cur.lines@[0]@);
        }
    }
    assert(views(cur.lines@).len() == cur.lines@.len());
    assert(input@.len() == 0 ==> lines_spec(input@).len() == 0);
    let budget = weight(&cur.lines);
    parse_blocks(&mut cur, flavor, budget)
}

fn parse_nested(lines: Vec<Vec<char>>, flavor: Flavor, budget: usize) -> (r: Result<Vec<Block>, ParseError>)
    decreases budget, 0nat,
{
    let w = weight(&lines);
    if w >= budget {
        return Err(stalled());
    }
    let mut cur = LineCursor { lines, pos: 0 };
    parse_blocks(&mut cur, flavor, w)
}

fn parse_blocks(cur: &mut LineCursor, flavor: Flavor, budget: usize) -> (r: Result<Vec<Block>, ParseError>)
    requires
        old(cur).wf(),
    ensures
        final(cur).moved_from(old(cur)),
        old(cur).pos >= old(cur).lines.len() ==> (r matches Ok(b) && b@.len() == 0),
        old(cur).pos == 0 && old(cur).lines@.len() == 1 && plain_line(old(cur).lines@[0]@)
            ==> reads_as_plain_paragraph(r, old(cur).lines@[0]@),
    decreases budget, 2nat,
{
    let ghost single = old(cur).pos == 0 && old(cur).lines@.len() == 1 && plain_line(old(cur).lines@[0]@);
    let ghost l0 = if old(cur).lines@.len() > 0 {
        old(cur).lines@[0]@
    } else {
        Seq::<char>::empty()
    };
    let mut blocks: Vec<Block> = Vec::new();
    while !cur.at_end()
        invariant
            cur.moved_from(old(cur)),
            old(cur).pos >= old(cur).lines.len() ==> blocks@.len() == 0,
            single == (old(cur).pos == 0 && old(cur).lines@.len() == 1 && plain_line(old(cur).lines@[0]@)),
            single ==> l0 == old(cur).lines@[0]@,
            single ==> (cur.pos == 0 && blocks@.len() == 0) || (cur.pos == 1 && plain_paragraph(blocks@, l0)),
        decreases cur.lines.len() - cur.pos,
    {
        let before = cur.pos;
        proof {
            if single {
                lemma_plain_line(l0, flavor);
                assert(trim_spec(views(cur.lines@)[cur.pos as int]) == l0);
            }
        }
        if is_blank(&cur.lines[cur.pos]) || is_ignored_line(cur, flavor) {
            cur.pos += 1;
            continue;
        }
        if let Some(b) = parse_heading(cur, flavor) {
            blocks.push(b);
        } else if is_horizontal_rule(cur, flavor) {
            cur.pos += 1;
            blocks.push(Block::HorizontalRule);
        } else if is_code_start(cur, flavor) {
            match parse_code(cur, flavor) {
                Ok(b) => blocks.push(b),
                Err(e) => return Err(e),
            }
        } else if is_quote_start(cur, flavor) {
            match parse_quote(cur, flavor, budget) {
                Ok(b) => blocks.push(b),
                Err(e) => return Err(e),
            }
        } else if is_table_start(cur) {
            match parse_table(cur, flavor) {
                Ok(b) => blocks.push(b),
                Err(e) => return Err(e),
            }
        } else if is_description_start(cur, flavor) {
            match parse_description_list(cur, flavor) {
                Ok(b) => blocks.push(b),
                Err(e) => return Err(e),
            }
        } else if flavor == Flavor::Textile && textile_marker(&cur.lines[cur.pos]).is_some() {
            blocks.push(parse_textile_list(cur, 1));
        } else {
            let marker = if flavor != Flavor::Textile {
                indented_marker(&cur.lines[cur.pos], flavor)
            } else {
                None
            };
            match marker {
                Some((indent, ordered, _, _)) => blocks.push(parse_indented_list(cur, flavor, indent, ordered)),
                None => blocks.push(parse_paragraph(cur, flavor)),
            }
        }
        if cur.pos == before {
            return Err(stalled());
        }
    }
    Ok(blocks)
}

/// What a plain line is not, in every flavor: it starts no block and holds
/// no inline markup.
proof fn lemma_plain_line(l: Seq<char>, flavor: Flavor)
    requires
        plain_line(l),
    ensures
        trim_spec(l) == l,
        !all_ws(l),
        !has_mark(l),
        forall|level: int, text: Seq<char>| !#[trigger] heading_line(l, flavor, level, text),
        textile_marker_of(l) is None,
        indented_marker_of(l, flavor) is None,
        !has_prefix(l, "p. "@),
        plain_lightweight(l),
        lines_spec(l) == seq![l],
        lines_spec(l.push('\n')) == seq![l],
{
    lemma_plain_line_text(l);
    reveal_strlit("- ");
    reveal_strlit("+ ");
    reveal_strlit("* ");
    reveal_strlit("p. ");
    reveal_strlit(". ");
    lemma_prefix_mark(l, "- "@, 0);
    lemma_prefix_mark(l, "+ "@, 0);
    lemma_prefix_mark(l, "* "@, 0);
    lemma_prefix_mark(l, "p. "@, 1);
    assert(leading_spec(l, '#') == 0);
    assert(leading_spec(l, '*') == 0);
    assert(l.subrange(0, l.len() as int) =~= l);
    assert forall|level: int, text: Seq<char>| !#[trigger] heading_line(l, flavor, level, text) by {
        if heading_line(l, flavor, level, text) && flavor == Flavor::Textile {
            let i = choose|i: int| #[trigger] first_occurrence_at(l, ". "@, 0, i) && i > 0;
            assert(l.subrange(i, i + 2)[0] == l[i]);
            assert(!plain_char(l[i]));
        }
    }
    let d = digits_from(l, 0);
    if d > 0 && l.len() - d > 1 && (l[d] == '.' || l[d] == ')') {
        assert(!plain_char(l[d]));
    }
    assert forall|i: int| 0 <= i < l.len() implies !lightweight_markup_char(#[trigger] l[i]) by {
        assert(plain_char(l[i]));
    }
}

/// A text whose lower-case form begins with a character that is not plain
/// begins with that character.
proof fn lemma_lower_head(t: Seq<char>, c: char)
    requires
        !plain_char(c),
    ensures
        t.len() > 0 && ascii_lower_spec(t)[0] == c ==> t[0] == c && has_mark(t),
{
    if t.len() > 0 && ascii_lower_spec(t)[0] == c {
        assert(ascii_lower_spec(t)[0] == ascii_lower_char(t[0]));
        if 'A' <= t[0] && t[0] <= 'Z' {
            assert(('a' <= ascii_lower_char(t[0]) && ascii_lower_char(t[0]) <= 'z')) by {
                assert(ascii_lower_char(t[0]) == ((t[0] as u32) + 32) as char);
            }
        }
        assert(!plain_char(t[0]));
    }
}

fn current_trimmed(cur: &LineCursor) -> (t: Vec<char>)
    requires
        cur.pos < cur.lines.len(),
    ensures
        t@ == trim_spec(cur.lines@[cur.pos as int]@),
{
    trim(&cur.lines[cur.pos])
}

fn is_ignored_line(cur: &LineCursor, flavor: Flavor) -> (b: bool)
    requires
        cur.pos < cur.lines.len(),
    ensures
        b ==> has_mark(trim_spec(cur.lines@[cur.pos as int]@)),
{
    let line = current_trimmed(cur);
    proof {
        reveal_strlit("#+");
        reveal_strlit("###.");
        reveal_strlit("{%");
        lemma_prefix_mark(line@, "#+"@, 0);
        lemma_prefix_mark(line@, "###."@, 0);
        lemma_prefix_mark(line@, "{%"@, 0);
    }
    match flavor {
        Flavor::Org => starts_with_lit(&line, "#+") && !eq_ignore_case_lit(&line, "#+begin_src")
            && !starts_with_lit(&to_ascii_lower(&line), "#+begin_src ") && !eq_ignore_case_lit(
            &line,
            "#+begin_quote",
        ),
        Flavor::Textile => starts_with_lit(&line, "###."),
        Flavor::Djot => starts_with_lit(&line, "{%") && ends_with_lit(&line, "%}"),
    }
}

/// A Djot (`#`) or Org (`*`) heading line: one to six markers and a space;
/// its text is the rest, trimmed, in Djot without closing `#`s.
pub open spec fn marked_heading(line: Seq<char>, flavor: Flavor, level: int, text: Seq<char>) -> bool {
    let marker = if flavor == Flavor::Djot {
        '#'
    } else {
        '*'
    };
    let rest = trim_spec(line.subrange(level, line.len() as int));
    &&& level == leading_spec(line, marker)
    &&& 1 <= level <= 6
    &&& level < line.len()
    &&& line[level] == ' '
    &&& text == (if flavor == Flavor::Djot {
        trim_spec(trim_end_char_spec(rest, '#'))
    } else {
        rest
    })
}

/// A Textile heading line `hN. text`, with `N` from one to six before the
/// first `. `.
pub open spec fn textile_heading(line: Seq<char>, level: int, text: Seq<char>) -> bool {
    &&& line.len() > 0
    &&& line[0] == 'h'
    &&& exists|i: int|
        #![trigger first_occurrence_at(line, ". "@, 0, i)]
        {
            &&& first_occurrence_at(line, ". "@, 0, i)
            &&& i > 0
            &&& parse_unsigned_spec(line.subrange(1, i), 255) == Some(level as nat)
            &&& text == line.subrange(i + 2, line.len() as int)
        }
    &&& 1 <= level <= 6
}

/// A heading line of the flavor, of `level`, with `text`.
pub open spec fn heading_line(line: Seq<char>, flavor: Flavor, level: int, text: Seq<char>) -> bool {
    match flavor {
        Flavor::Textile => textile_heading(line, level, text),
        _ => marked_heading(line, flavor, level, text),
    }
}

/// Reads the current line as a heading of the flavor, if it is one.
fn parse_heading(cur: &mut LineCursor, flavor: Flavor) -> (r: Option<Block>)
    requires
        old(cur).wf(),
        old(cur).pos < old(cur).lines.len(),
    ensures
        final(cur).moved_from(old(cur)),
        r is Some ==> final(cur).pos == old(cur).pos + 1,
        r is None ==> final(cur).pos == old(cur).pos,
        ({
            let line = trim_spec(views(old(cur).lines@)[old(cur).pos as int]);
            match r {
                Some(b) => exists|level: int, text: Seq<char>|
                    #![trigger heading_line(line, flavor, level, text)]
                    {
                        &&& heading_line(line, flavor, level, text)
                        &&& b matches Block::Heading { level: l, content: c } && l == level && (
                        plain_lightweight(text) ==> (if text.len() == 0 {
                            c@.len() == 0
                        } else {
                            c@.len() == 1 && c@[0] is Text && text_of_inline(c@[0]) == text
                        }))
                    },
                None => forall|level: int, text: Seq<char>| !#[trigger] heading_line(line, flavor, level, text),
            }
        }),
{
    let ghost ls = views(cur.lines@);
    let line = cur.trimmed();
    assert(line@ == trim_spec(ls[cur.pos as int]));
    let (level, content) = match flavor {
        Flavor::Djot | Flavor::Org => {
            let marker = if flavor == Flavor::Djot {
                '#'
            } else {
                '*'
            };
            let level = count_leading(&line, marker);
            if level == 0 || level > 6 || level >= line.len() || line[level] != ' ' {
                return None;
            }
            let rest = trim(&skip(&line, level));
            let content = if flavor == Flavor::Djot {
                trim(&trim_end_char(&rest, '#'))
            } else {
                rest
            };
            assert(marked_heading(line@, flavor, level as int, content@));
            (level as u8, content)
        },
        Flavor::Textile => {
            if !first_is(&line, 'h') {
                return None;
            }
            proof {
                reveal_strlit(". ");
            }
            let (prefix, content) = match split_once_lit(&line, ". ") {
                Some(p) => p,
                None => {
                    assert forall|level: int, text: Seq<char>| !#[trigger] textile_heading(line@, level, text) by {
                        if textile_heading(line@, level, text) {
                            let i = choose|i: int|
                                #![trigger first_occurrence_at(line@, ". "@, 0, i)]
                                {
                                    &&& first_occurrence_at(line@, ". "@, 0, i)
                                    &&& i > 0
                                    &&& parse_unsigned_spec(line@.subrange(1, i), 255) == Some(level as nat)
                                    &&& text == line@.subrange(i + 2, line@.len() as int)
                                };
                            assert(occurs_at(line@, ". "@, i));
                        }
                    }
                    return None;
                },
            };
            let ghost i = choose|i: int|
                {
                    &&& occurs_at(line@, ". "@, i)
                    &&& forall|j: int| 0 <= j < i ==> !occurs_at(line@, ". "@, j)
                    &&& prefix@ == line@.subrange(0, i)
                    &&& content@ == line@.subrange(i + ". "@.len(), line@.len() as int)
                };
            assert(first_occurrence_at(line@, ". "@, 0, i));
            if prefix.len() == 0 {
                assert forall|level: int, text: Seq<char>| !#[trigger] textile_heading(line@, level, text) by {
                    if textile_heading(line@, level, text) {
                        let i2 = choose|i2: int|
                            #![trigger first_occurrence_at(line@, ". "@, 0, i2)]
                            {
                                &&& first_occurrence_at(line@, ". "@, 0, i2)
                                &&& i2 > 0
                                &&& parse_unsigned_spec(line@.subrange(1, i2), 255) == Some(level as nat)
                                &&& text == line@.subrange(i2 + 2, line@.len() as int)
                            };
                        assert(i2 == i);
                    }
                }
                return None;
            }
            let digits = skip(&prefix, 1);
            assert(digits@ == line@.subrange(1, i));
            let level = match parse_unsigned(&digits, 255) {
                Some(l) => l,
                None => {
                    assert forall|level: int, text: Seq<char>| !#[trigger] textile_heading(line@, level, text) by {
                        if textile_heading(line@, level, text) {
                            let i2 = choose|i2: int|
                                #![trigger first_occurrence_at(line@, ". "@, 0, i2)]
                                {
                                    &&& first_occurrence_at(line@, ". "@, 0, i2)
                                    &&& i2 > 0
                                    &&& parse_unsigned_spec(line@.subrange(1, i2), 255) == Some(level as nat)
                                    &&& text == line@.subrange(i2 + 2, line@.len() as int)
                                };
                            assert(i2 == i);
                        }
                    }
                    return None;
                },
            };
            if level < 1 || level > 6 {
                assert forall|lv: int, text: Seq<char>| !#[trigger] textile_heading(line@, lv, text) by {
                    if textile_heading(line@, lv, text) {
                        let i2 = choose|i2: int|
                            #![trigger first_occurrence_at(line@, ". "@, 0, i2)]
                            {
                                &&& first_occurrence_at(line@, ". "@, 0, i2)
                                &&& i2 > 0
                                &&& parse_unsigned_spec(line@.subrange(1, i2), 255) == Some(lv as nat)
                                &&& text == line@.subrange(i2 + 2, line@.len() as int)
                            };
                        assert(i2 == i);
                    }
                }
                return None;
            }
            assert(textile_heading(line@, level as int, content@));
            (level as u8, content)
        },
    };
    cur.pos += 1;
    let inl = parse_inlines(&content, flavor);
    assert(heading_line(line@, flavor, level as int, content@));
    Some(Block::Heading { level, content: inl })
}

fn is_horizontal_rule(cur: &LineCursor, flavor: Flavor) -> (b: bool)
    requires
        cur.pos < cur.lines.len(),
    ensures
        b ==> has_mark(trim_spec(cur.lines@[cur.pos as int]@)),
{
    let line = current_trimmed(cur);
    proof {
        reveal_strlit("<hr>");
        reveal_strlit("<hr />");
        lemma_without_ws_sub(line@);
        if without_ws(line@).len() > 0 {
            let j = choose|j: int| 0 <= j < line@.len() && line@[j] == #[trigger] without_ws(line@)[0];
            assert(line@[j] == without_ws(line@)[0]);
        }
        if line@.len() > 0 {
            assert(line@[0] == line@[0]);
        }
    }
    match flavor {
        Flavor::Djot => {
            let compact = remove_ws(&line);
            compact.len() >= 4 && (all_eq(&compact, '-') || all_eq(&compact, '*'))
        },
        Flavor::Org => byte_len(&line) >= 5 && all_eq(&line, '-'),
        Flavor::Textile => eq_lit(&line, "<hr>") || eq_lit(&line, "<hr />"),
    }
}

fn is_code_start(cur: &LineCursor, flavor: Flavor) -> (b: bool)
    requires
        cur.pos < cur.lines.len(),
    ensures
        b ==> has_mark(trim_spec(cur.lines@[cur.pos as int]@)),
{
    let line = current_trimmed(cur);
    proof {
        reveal_strlit("```");
        reveal_strlit("#+begin_src");
        reveal_strlit("bc. ");
        reveal_strlit("bc..");
        reveal_strlit("bc(");
        reveal_strlit("pre. ");
        reveal_strlit("pre..");
        lemma_prefix_mark(line@, "```"@, 0);
        lemma_prefix_mark(line@, "bc. "@, 2);
        lemma_prefix_mark(line@, "bc.."@, 2);
        lemma_prefix_mark(line@, "bc("@, 2);
        lemma_prefix_mark(line@, "pre. "@, 3);
        lemma_prefix_mark(line@, "pre.."@, 3);
        lemma_lower_head(line@, '#');
        lemma_prefix_head(ascii_lower_spec(line@), "#+begin_src"@);
    }
    match flavor {
        Flavor::Djot => starts_with_lit(&line, "```"),
        Flavor::Org => starts_with_lit(&to_ascii_lower(&line), "#+begin_src"),
        Flavor::Textile => starts_with_lit(&line, "bc. ") || starts_with_lit(&line, "bc..")
            || starts_with_lit(&line, "bc(") || starts_with_lit(&line, "pre. ") || starts_with_lit(
            &line,
            "pre..",
        ),
    }
}

/// The index of the first line from `k` on that closes a Djot code fence of
/// `fence` backticks, or the number of lines.
pub open spec fn djot_fence_close(lines: Seq<Seq<char>>, k: int, fence: nat) -> int
    decreases lines.len() - k,
{
    if k < 0 || k >= lines.len() {
        lines.len() as int
    } else if all_eq_spec(trim_spec(lines[k]), '`') && trim_spec(lines[k]).len() >= fence {
        k
    } else {
        djot_fence_close(lines, k + 1, fence)
    }
}

/// The index of the first line from `k` on that reads `#+end_src` in any case,
/// or the number of lines.
pub open spec fn org_src_close(lines: Seq<Seq<char>>, k: int) -> int
    decreases lines.len() - k,
{
    if k < 0 || k >= lines.len() {
        lines.len() as int
    } else if ascii_lower_spec(trim_spec(lines[k])) == ascii_lower_spec("#+end_src"@) {
        k
    } else {
        org_src_close(lines, k + 1)
    }
}

/// A line that closes a Textile extended block: `p.` or `p. …`.
pub open spec fn textile_p(line: Seq<char>) -> bool {
    line == "p."@ || has_prefix(line, "p. "@)
}

/// The index of the first line from `k` on where a Textile extended block
/// ends: a `p.` line, or a blank line before one; or the number of lines.
pub open spec fn textile_stop(lines: Seq<Seq<char>>, k: int) -> int
    decreases lines.len() - k,
{
    if k < 0 || k >= lines.len() {
        lines.len() as int
    } else if textile_p(lines[k]) || (all_ws(lines[k]) && k + 1 < lines.len() && textile_p(
        lines[k + 1],
    )) {
        k
    } else {
        textile_stop(lines, k + 1)
    }
}

/// The line after the end of a Textile extended block that starts at `k`.
pub open spec fn textile_resume(lines: Seq<Seq<char>>, k: int) -> int {
    let e = textile_stop(lines, k);
    if e >= lines.len() {
        lines.len() as int
    } else if textile_p(lines[e]) {
        e + 1
    } else {
        e + 2
    }
}

/// The language of a Textile `bc(lang)` block.
pub open spec fn textile_language(opening: Seq<char>) -> Option<Seq<char>> {
    if has_prefix(opening, "bc("@) {
        let rest = opening.subrange(3, opening.len() as int);
        match index_of_char(rest, ')') {
            Some(i) => Some(rest.subrange(0, i)),
            None => None,
        }
    } else {
        None
    }
}

/// The text of a one-line Textile code block: what follows the first `. `.
pub open spec fn textile_inline_code(opening: Seq<char>, content: Seq<char>) -> bool {
    ||| exists|i: int|
        {
            &&& occurs_at(opening, ". "@, i)
            &&& forall|j: int| 0 <= j < i ==> !occurs_at(opening, ". "@, j)
            &&& content == opening.subrange(i + 2, opening.len() as int)
        }
    ||| (forall|j: int| !occurs_at(opening, ". "@, j)) && content.len() == 0
}

/// What reading a Djot code fence at line `p` gives, and the line after it.
pub open spec fn djot_code(lines: Seq<Seq<char>>, p: int, r: Result<Block, ParseError>, after: int) -> bool {
    let op = trim_spec(lines[p]);
    let fence = leading_spec(op, '`');
    let info = trim_spec(op.subrange(fence as int, op.len() as int));
    let k = djot_fence_close(lines, p + 1, fence);
    let body = join_spec(lines.subrange(p + 1, k), "\n"@);
    &&& after == (if k < lines.len() {
        k + 1
    } else {
        lines.len() as int
    })
    &&& match r {
        Ok(b) => if info.len() > 0 && info[0] == '=' {
            is_raw_block(b, info.subrange(1, info.len() as int), body)
        } else {
            is_code_block(
                b,
                if info.len() == 0 {
                    None
                } else {
                    Some(info)
                },
                body,
            )
        },
        Err(_) => false,
    }
}

/// What reading an Org source block at line `p` gives, and the line after it:
/// the language is the second word of the opening line; a block without
/// `#+end_src` is an error.
pub open spec fn org_code(lines: Seq<Seq<char>>, p: int, r: Result<Block, ParseError>, after: int) -> bool {
    let words = words_spec(trim_spec(lines[p]));
    let language = if words.len() > 1 && words[1].len() > 0 {
        Some(words[1])
    } else {
        None
    };
    let k = org_src_close(lines, p + 1);
    if k >= lines.len() {
        &&& after == lines.len()
        &&& match r {
            Err(ParseError::InvalidInput(d)) => d@ == "unterminated Org source block"@,
            Ok(_) => false,
        }
    } else {
        &&& after == k + 1
        &&& match r {
            Ok(b) => is_code_block(b, language, join_spec(lines.subrange(p + 1, k), "\n"@)),
            Err(_) => false,
        }
    }
}

/// What reading a Textile code block at line `p` gives, and the line after
/// it: `bc. text` on one line, or an extended block (`bc..`, `pre..`,
/// `bc(lang)..`) up to a `p.` line, its text trimmed at the end.
pub open spec fn textile_code(lines: Seq<Seq<char>>, p: int, r: Result<Block, ParseError>, after: int) -> bool {
    let op = trim_spec(lines[p]);
    let extended = has_prefix(op, "bc.."@) || has_prefix(op, "pre.."@) || has_suffix(op, ").."@);
    let language = textile_language(op);
    if !extended {
        &&& after == p + 1
        &&& match r {
            Ok(b) => match b {
                Block::CodeBlock { content, .. } => textile_inline_code(op, content@) && is_code_block(
                    b,
                    language,
                    content@,
                ),
                _ => false,
            },
            Err(_) => false,
        }
    } else {
        &&& after == textile_resume(lines, p + 1)
        &&& match r {
            Ok(b) => is_code_block(
                b,
                language,
                trim_end_spec(join_spec(lines.subrange(p + 1, textile_stop(lines, p + 1)), "\n"@)),
            ),
            Err(_) => false,
        }
    }
}

/// Whether a line closes a Textile extended block: `p.` or `p. …`.
fn is_textile_p(line: &Vec<char>) -> (b: bool)
    ensures
        b == textile_p(line@),
{
    eq_lit(line, "p.") || starts_with_lit(line, "p. ")
}

/// Collects the lines of a Textile extended block up to a `p.` line (or a
/// blank line before one), which it moves past.
fn textile_extended(cur: &mut LineCursor) -> (r: Vec<Vec<char>>)
    requires
        old(cur).wf(),
    ensures
        final(cur).moved_from(old(cur)),
        views(r@) == views(old(cur).lines@).subrange(
            old(cur).pos as int,
            textile_stop(views(old(cur).lines@), old(cur).pos as int),
        ),
        final(cur).pos == textile_resume(views(old(cur).lines@), old(cur).pos as int),
{
    let ghost ls = views(cur.lines@);
    let ghost start = cur.pos as int;
    let mut content: Vec<Vec<char>> = Vec::new();
    let mut done = false;
    let mut step: usize = 0;
    assert(ls.subrange(start, start) =~= Seq::<Seq<char>>::empty());
    while !done && !cur.at_end()
        invariant
            cur.moved_from(old(cur)),
            ls == views(cur.lines@),
            ls.len() == cur.lines@.len(),
            start == old(cur).pos,
            views(content@) == ls.subrange(start, cur.pos as int),
            textile_stop(ls, start) == textile_stop(ls, cur.pos as int),
            !done ==> step == 0,
            done ==> cur.pos < ls.len() && textile_stop(ls, cur.pos as int) == cur.pos && step == (
            if textile_p(ls[cur.pos as int]) {
                1int
            } else {
                2int
            }) && cur.pos + step <= ls.len(),
        decreases cur.lines.len() - cur.pos, if done {
            0int
        } else {
            1int
        },
    {
        let line = cur.line();
        assert(line@ == ls[cur.pos as int]);
        if is_textile_p(&line) {
            done = true;
            step = 1;
        } else if is_blank(&line) && cur.pos + 1 < cur.lines.len() && is_textile_p(
            &cur.lines[cur.pos + 1],
        ) {
            assert(cur.lines@[cur.pos + 1]@ == ls[cur.pos + 1]);
            done = true;
            step = 2;
        } else {
            if cur.pos + 1 < cur.lines.len() {
                assert(cur.lines@[cur.pos + 1]@ == ls[cur.pos + 1]);
            }
            let ghost before = content@;
            content.push(line);
            assert(views(content@) =~= views(before).push(ls[cur.pos as int]));
            cur.pos += 1;
            assert(ls.subrange(start, cur.pos as int) =~= ls.subrange(start, cur.pos - 1).push(
                ls[cur.pos - 1],
            ));
        }
    }
    cur.pos += step;
    content
}

fn parse_code(cur: &mut LineCursor, flavor: Flavor) -> (r: Result<Block, ParseError>)
    requires
        old(cur).wf(),
        old(cur).pos < old(cur).lines.len(),
    ensures
        final(cur).moved_from(old(cur)),
        final(cur).pos > old(cur).pos,
        match flavor {
            Flavor::Djot => djot_code(views(old(cur).lines@), old(cur).pos as int, r, final(cur).pos as int),
            Flavor::Org => org_code(views(old(cur).lines@), old(cur).pos as int, r, final(cur).pos as int),
            Flavor::Textile => textile_code(
                views(old(cur).lines@),
                old(cur).pos as int,
                r,
                final(cur).pos as int,
            ),
        },
{
    let ghost ls = views(cur.lines@);
    let ghost p = cur.pos as int;
    let opening = cur.trimmed();
    assert(opening@ == trim_spec(ls[p]));
    match flavor {
        Flavor::Djot => parse_djot_code(cur, &opening),
        Flavor::Org => parse_org_code(cur, &opening),
        Flavor::Textile => parse_textile_code(cur, &opening),
    }
}

fn parse_djot_code(cur: &mut LineCursor, opening: &Vec<char>) -> (r: Result<Block, ParseError>)
    requires
        old(cur).wf(),
        old(cur).pos < old(cur).lines.len(),
        opening@ == trim_spec(views(old(cur).lines@)[old(cur).pos as int]),
    ensures
        final(cur).moved_from(old(cur)),
        final(cur).pos > old(cur).pos,
        djot_code(views(old(cur).lines@), old(cur).pos as int, r, final(cur).pos as int),
{
    let ghost ls = views(cur.lines@);
    let ghost p = cur.pos as int;
    let fence = count_leading(opening, '`');
    let info = trim(&skip(opening, fence));
    let raw = if first_is(&info, '=') {
        Some(skip(&info, 1))
    } else {
        None
    };
    let language = if info.len() == 0 || raw.is_some() {
        None
    } else {
        Some(string_of(&info))
    };
    cur.pos += 1;
    let mut content: Vec<Vec<char>> = Vec::new();
    let mut closed = false;
    assert(ls.subrange(p + 1, p + 1) =~= Seq::<Seq<char>>::empty());
    while !closed && !cur.at_end()
        invariant
            cur.moved_from(old(cur)),
            cur.pos > old(cur).pos,
            ls == views(cur.lines@),
            ls.len() == cur.lines@.len(),
            p == old(cur).pos,
            views(content@) == ls.subrange(p + 1, cur.pos as int),
            djot_fence_close(ls, p + 1, fence as nat) == djot_fence_close(ls, cur.pos as int, fence as nat),
            closed ==> cur.pos < ls.len() && djot_fence_close(ls, cur.pos as int, fence as nat) == cur.pos,
        decreases cur.lines.len() - cur.pos, if closed {
            0int
        } else {
            1int
        },
    {
        let line = cur.line();
        assert(line@ == ls[cur.pos as int]);
        let t = trim(&line);
        if all_eq(&t, '`') && t.len() >= fence {
            closed = true;
        } else {
            let ghost before = content@;
            content.push(line);
            assert(views(content@) =~= views(before).push(ls[cur.pos as int]));
            cur.pos += 1;
            assert(ls.subrange(p + 1, cur.pos as int) =~= ls.subrange(p + 1, cur.pos - 1).push(
                ls[cur.pos - 1],
            ));
        }
    }
    if closed {
        cur.pos += 1;
    }
    let text = string_of(&join(&content, "\n"));
    match raw {
        Some(f) => Ok(Block::RawBlock { format: Some(string_of(&f)), content: text }),
        None => Ok(Block::CodeBlock { language, content: text }),
    }
}

fn parse_org_code(cur: &mut LineCursor, opening: &Vec<char>) -> (r: Result<Block, ParseError>)
    requires
        old(cur).wf(),
        old(cur).pos < old(cur).lines.len(),
        opening@ == trim_spec(views(old(cur).lines@)[old(cur).pos as int]),
    ensures
        final(cur).moved_from(old(cur)),
        final(cur).pos > old(cur).pos,
        org_code(views(old(cur).lines@), old(cur).pos as int, r, final(cur).pos as int),
{
    let ghost ls = views(cur.lines@);
    let ghost p = cur.pos as int;
    let words = split_whitespace(opening);
    let language = if words.len() > 1 && words[1].len() > 0 {
        Some(string_of(&words[1]))
    } else {
        None
    };
    assert(words.len() > 1 ==> words@[1]@ == views(words@)[1]);
    cur.pos += 1;
    let mut content: Vec<Vec<char>> = Vec::new();
    assert(ls.subrange(p + 1, p + 1) =~= Seq::<Seq<char>>::empty());
    while !cur.at_end() && !eq_ignore_case_lit(&trim(&cur.lines[cur.pos]), "#+end_src")
        invariant
            cur.moved_from(old(cur)),
            cur.pos > old(cur).pos,
            ls == views(cur.lines@),
            ls.len() == cur.lines@.len(),
            p == old(cur).pos,
            views(content@) == ls.subrange(p + 1, cur.pos as int),
            org_src_close(ls, p + 1) == org_src_close(ls, cur.pos as int),
        decreases cur.lines.len() - cur.pos,
    {
        assert(cur.lines@[cur.pos as int]@ == ls[cur.pos as int]);
        let ghost before = content@;
        content.push(cur.line());
        assert(views(content@) =~= views(before).push(ls[cur.pos as int]));
        cur.pos += 1;
        assert(ls.subrange(p + 1, cur.pos as int) =~= ls.subrange(p + 1, cur.pos - 1).push(
            ls[cur.pos - 1],
        ));
    }
    if cur.at_end() {
        return Err(ParseError::invalid("unterminated Org source block"));
    }
    assert(cur.lines@[cur.pos as int]@ == ls[cur.pos as int]);
    cur.pos += 1;
    Ok(Block::CodeBlock { language, content: string_of(&join(&content, "\n")) })
}

fn parse_textile_code(cur: &mut LineCursor, opening: &Vec<char>) -> (r: Result<Block, ParseError>)
    requires
        old(cur).wf(),
        old(cur).pos < old(cur).lines.len(),
        opening@ == trim_spec(views(old(cur).lines@)[old(cur).pos as int]),
    ensures
        final(cur).moved_from(old(cur)),
        final(cur).pos > old(cur).pos,
        textile_code(views(old(cur).lines@), old(cur).pos as int, r, final(cur).pos as int),
{
    let ghost ls = views(cur.lines@);
    let ghost p = cur.pos as int;
    let extended = starts_with_lit(opening, "bc..") || starts_with_lit(opening, "pre..")
        || ends_with_lit(opening, ")..");
    let language = match strip_prefix_lit(opening, "bc(") {
        Some(rest) => match find_char(&rest, ')') {
            Some(i) => {
                proof {
                    lemma_index_of_char_unique(rest@, ')', i as int);
                }
                Some(string_of(&substring(&rest, 0, i)))
            },
            None => {
                proof {
                    lemma_index_of_char_unique(rest@, ')', rest@.len() as int);
                }
                None
            },
        },
        None => None,
    };
    proof {
        reveal_strlit("bc(");
    }
    assert(match language {
        Some(l) => textile_language(opening@) == Some(l@),
        None => textile_language(opening@) is None,
    });
    if !extended {
        let content = match split_once_lit(opening, ". ") {
            Some((_, v)) => v,
            None => Vec::new(),
        };
        proof {
            reveal_strlit(". ");
        }
        assert(textile_inline_code(opening@, content@));
        cur.pos += 1;
        return Ok(Block::CodeBlock { language, content: string_of(&content) });
    }
    cur.pos += 1;
    let content = textile_extended(cur);
    Ok(Block::CodeBlock { language, content: string_of(&trim_end(&join(&content, "\n"))) })
}

fn is_quote_start(cur: &LineCursor, flavor: Flavor) -> (b: bool)
    requires
        cur.pos < cur.lines.len(),
    ensures
        b ==> has_mark(trim_spec(cur.lines@[cur.pos as int]@)),
{
    let line = current_trimmed(cur);
    proof {
        reveal_strlit(">");
        reveal_strlit("> ");
        reveal_strlit("#+begin_quote");
        reveal_strlit("bq. ");
        reveal_strlit("bq..");
        lemma_prefix_mark(line@, "> "@, 0);
        lemma_prefix_mark(line@, "bq. "@, 2);
        if line@ == ">"@ {
            assert(!plain_char(line@[0]));
        }
        if line@ == "bq.."@ {
            assert(!plain_char(line@[3]));
        }
        lemma_lower_head(line@, '#');
        if ascii_lower_spec(line@) == ascii_lower_spec("#+begin_quote"@) {
            assert(ascii_lower_spec("#+begin_quote"@).len() == 13);
            assert(line@.len() == 13);
            assert(ascii_lower_spec("#+begin_quote"@)[0] == ascii_lower_char('#'));
            assert(ascii_lower_spec(line@)[0] == '#');
        }
    }
    match flavor {
        Flavor::Djot => eq_lit(&line, ">") || starts_with_lit(&line, "> "),
        Flavor::Org => eq_ignore_case_lit(&line, "#+begin_quote"),
        Flavor::Textile => starts_with_lit(&line, "bq. ") || eq_lit(&line, "bq.."),
    }
}

/// A line of a Djot block quote: after its indentation, `> ` or only `>`.
pub open spec fn djot_quote_line(l: Seq<char>) -> bool {
    let t = trim_start_spec(l);
    has_prefix(t, "> "@) || t == ">"@
}

/// The end of the run of Djot quote lines from `k`.
pub open spec fn djot_quote_end(lines: Seq<Seq<char>>, k: int) -> int
    decreases lines.len() - k,
{
    if 0 <= k < lines.len() && djot_quote_line(lines[k]) {
        djot_quote_end(lines, k + 1)
    } else {
        k
    }
}

/// The first line from `k` on that ends an Org quote block (`#+end_quote`
/// in any case), or the number of lines.
pub open spec fn org_quote_end(lines: Seq<Seq<char>>, k: int) -> int
    decreases lines.len() - k,
{
    if k < 0 || k >= lines.len() {
        lines.len() as int
    } else if ascii_lower_spec(trim_spec(lines[k])) == ascii_lower_spec("#+end_quote"@) {
        k
    } else {
        org_quote_end(lines, k + 1)
    }
}

fn parse_quote(cur: &mut LineCursor, flavor: Flavor, budget: usize) -> (r: Result<Block, ParseError>)
    requires
        old(cur).wf(),
        old(cur).pos < old(cur).lines.len(),
    ensures
        final(cur).moved_from(old(cur)),
        r matches Ok(b) ==> b is BlockQuote,
        flavor == Flavor::Djot ==> final(cur).pos == djot_quote_end(views(old(cur).lines@), old(cur).pos as int),
        flavor == Flavor::Org ==> {
            let e = org_quote_end(views(old(cur).lines@), old(cur).pos + 1);
            &&& e >= old(cur).lines@.len() ==> r is Err
            &&& e < old(cur).lines@.len() ==> final(cur).pos == e + 1
        },
    decreases budget, 1nat,
{
    let ghost ls = views(cur.lines@);
    let mut inner: Vec<Vec<char>> = Vec::new();
    match flavor {
        Flavor::Djot => {
            while !cur.at_end()
                invariant_except_break
                    djot_quote_end(ls, old(cur).pos as int) == djot_quote_end(ls, cur.pos as int),
                invariant
                    cur.moved_from(old(cur)),
                    ls == views(cur.lines@),
                ensures
                    djot_quote_end(ls, old(cur).pos as int) == cur.pos,
                decreases cur.lines.len() - cur.pos,
            {
                proof {
                    reveal_strlit("> ");
                    reveal_strlit(">");
                }
                assert(cur.lines@[cur.pos as int]@ == ls[cur.pos as int]);
                let line = trim_start(&cur.lines[cur.pos]);
                if let Some(c) = strip_prefix_lit(&line, "> ") {
                    inner.push(c);
                } else if eq_lit(&line, ">") {
                    inner.push(Vec::new());
                } else {
                    break;
                }
                cur.pos += 1;
            }
        },
        Flavor::Org => {
            cur.pos += 1;
            while !cur.at_end() && !eq_ignore_case_lit(&trim(&cur.lines[cur.pos]), "#+end_quote")
                invariant
                    cur.moved_from(old(cur)),
                    cur.pos >= old(cur).pos + 1,
                    ls == views(cur.lines@),
                    org_quote_end(ls, old(cur).pos + 1) == org_quote_end(ls, cur.pos as int),
                decreases cur.lines.len() - cur.pos,
            {
                assert(cur.lines@[cur.pos as int]@ == ls[cur.pos as int]);
                inner.push(cur.line());
                cur.pos += 1;
            }
            if cur.at_end() {
                return Err(ParseError::invalid("unterminated Org quote block"));
            }
            cur.pos += 1;
        },
        Flavor::Textile => {
            let line = cur.trimmed();
            cur.pos += 1;
            if let Some(c) = strip_prefix_lit(&line, "bq. ") {
                inner.push(c);
            } else {
                inner = textile_extended(cur);
            }
        },
    }
    match parse_nested(inner, flavor, budget) {
        Ok(children) => Ok(Block::BlockQuote { children }),
        Err(e) => Err(e),
    }
}

fn is_table_start(cur: &LineCursor) -> (b: bool)
    requires
        cur.pos < cur.lines.len(),
    ensures
        b ==> has_mark(trim_spec(cur.lines@[cur.pos as int]@)),
{
    let line = current_trimmed(cur);
    proof {
        if line@.len() > 0 {
            assert(line@[0] == line@[0]);
        }
    }
    first_is(&line, '|') && last_is(&line, '|')
}

/// The cells of a table line: its text without the outer pipes, split at
/// pipes, each trimmed.
pub fn split_pipe_row(line: &Vec<char>) -> (r: Vec<Vec<char>>)
    ensures
        views(r@) == pipe_cells(line@),
        r@.len() >= 1,
{
    let inner = trim_end_char(&trim_start_char(line, '|'), '|');
    let parts = split_char(&inner, '|');
    let ghost pieces = split_spec(inner@, '|');
    let mut r: Vec<Vec<char>> = Vec::new();
    let mut k: usize = 0;
    while k < parts.len()
        invariant
            k <= parts.len(),
            r@.len() == k,
            views(parts@) == pieces,
            pieces == split_spec(inner@, '|'),
            inner@ == trim_end_char_spec(line@.subrange(leading_spec(line@, '|') as int, line@.len() as int), '|'),
            forall|j: int| 0 <= j < k ==> (#[trigger] r@[j])@ == trim_spec(pieces[j]),
        decreases parts.len() - k,
    {
        assert(parts@[k as int]@ == pieces[k as int]);
        r.push(trim(&parts[k]));
        k += 1;
    }
    assert(views(r@) =~= pipe_cells(line@));
    r
}

/// The cells of a table line: its text without the leading and trailing
/// pipes, split at pipes, each trimmed.
pub open spec fn pipe_cells(line: Seq<char>) -> Seq<Seq<char>> {
    let inner = trim_end_char_spec(line.subrange(leading_spec(line, '|') as int, line.len() as int), '|');
    split_spec(inner, '|').map_values(|p: Seq<char>| trim_spec(p))
}

/// A header separator cell (`---`, `:--:`, and in Org any mix of `-`, `:`
/// and `+`).
pub open spec fn separator_cell(cell: Seq<char>, flavor: Flavor) -> bool {
    if flavor == Flavor::Org {
        forall|k: int| 0 <= k < cell.len() ==> (#[trigger] cell[k] == '+' || cell[k] == '-' || cell[k] == ':')
    } else {
        let s = cell.subrange(leading_spec(cell, ':') as int, cell.len() as int);
        let t = trim_spec(trim_end_char_spec(s, ':'));
        t.len() > 0 && all_eq_spec(t, '-')
    }
}

/// Whether a cell is a header separator (`---`, `:--:`, and in Org any mix
/// of `-`, `:` and `+`).
pub(crate) fn is_table_separator(cell: &Vec<char>, flavor: Flavor) -> (b: bool)
    ensures
        b == separator_cell(cell@, flavor),
{
    if flavor == Flavor::Org {
        let mut i: usize = 0;
        while i < cell.len()
            invariant
                i <= cell.len(),
                flavor == Flavor::Org,
                forall|k: int| 0 <= k < i ==> (#[trigger] cell@[k] == '+' || cell@[k] == '-' || cell@[k] == ':'),
            decreases cell.len() - i,
        {
            let c = cell[i];
            if c != '+' && c != '-' && c != ':' {
                return false;
            }
            i += 1;
        }
        return true;
    }
    let t = trim(&trim_end_char(&trim_start_char(cell, ':'), ':'));
    t.len() > 0 && all_eq(&t, '-')
}

fn all_separators(row: &Vec<Vec<char>>, flavor: Flavor) -> bool {
    let mut k: usize = 0;
    while k < row.len()
        invariant
            k <= row.len(),
        decreases row.len() - k,
    {
        if !is_table_separator(&row[k], flavor) {
            return false;
        }
        k += 1;
    }
    true
}

/// The alignment a separator cell's colons give.
pub(crate) fn separator_alignment(cell: &Vec<char>) -> ColumnAlignment {
    let l = first_is(cell, ':');
    let r = last_is(cell, ':');
    if l && r {
        ColumnAlignment::Center
    } else if l {
        ColumnAlignment::Left
    } else if r {
        ColumnAlignment::Right
    } else {
        ColumnAlignment::Default
    }
}

/// The alignment of a Textile header cell: `<. ` left, `=. ` centre, `>. `
/// right.
pub(crate) fn textile_alignment(cell: &Vec<char>) -> ColumnAlignment {
    let content = match strip_prefix_lit(cell, "_. ") {
        Some(c) => c,
        None => copy(cell),
    };
    if starts_with_lit(&content, "<. ") {
        ColumnAlignment::Left
    } else if starts_with_lit(&content, "=. ") {
        ColumnAlignment::Center
    } else if starts_with_lit(&content, ">. ") {
        ColumnAlignment::Right
    } else {
        ColumnAlignment::Default
    }
}

/// The number of ASCII digits at the start of `s` from `i` on.
pub open spec fn digits_from(s: Seq<char>, i: int) -> int
    decreases s.len() - i,
{
    if 0 <= i < s.len() && is_digit_spec(s[i]) {
        1 + digits_from(s, i + 1)
    } else {
        0
    }
}

/// A number of ASCII digits at the start of `s` and its value as `u32`.
fn leading_number(s: &Vec<char>) -> (r: (usize, Option<u64>))
    ensures
        r.0 <= s@.len(),
        r.0 == digits_from(s@, 0),
        r.1 == (match parse_unsigned_spec(s@.subrange(0, r.0 as int), 4294967295) {
            Some(v) => Some(v as u64),
            None => None,
        }),
{
    let mut d: usize = 0;
    while d < s.len() && is_digit(s[d])
        invariant
            d <= s.len(),
            digits_from(s@, 0) == d + digits_from(s@, d as int),
        decreases s.len() - d,
    {
        d += 1;
    }
    (d, parse_unsigned(&substring(s, 0, d), 4294967295))
}

/// A table cell; in Textile its header, alignment and `\N.`/`/N.` span
/// markers are read.
/// `s` without the prefix `p`, where it starts with it.
pub open spec fn without_prefix(s: Seq<char>, p: Seq<char>) -> Seq<char> {
    if has_prefix(s, p) {
        s.subrange(p.len() as int, s.len() as int)
    } else {
        s
    }
}

/// The spans that the `\N.` (columns) and `/N.` (rows) markers at the start
/// of a Textile cell set, read one after the other.
pub open spec fn textile_spans(content: Seq<char>, colspan: u32, rowspan: u32) -> (u32, u32)
    decreases content.len(),
{
    if !(content.len() > 0 && (content[0] == '\\' || content[0] == '/')) {
        (colspan, rowspan)
    } else {
        let col = content[0] == '\\';
        let rest = content.subrange(1, content.len() as int);
        let d = digits_from(rest, 0);
        match parse_unsigned_spec(rest.subrange(0, d), 4294967295) {
            None => (colspan, rowspan),
            Some(v) => {
                let cs = if col { v as u32 } else { colspan };
                let rs = if col { rowspan } else { v as u32 };
                let after = rest.subrange(d, rest.len() as int);
                let next = trim_spec(after.subrange(leading_spec(after, '.') as int, after.len() as int));
                if next.len() >= content.len() {
                    (cs, rs)
                } else {
                    textile_spans(next, cs, rs)
                }
            },
        }
    }
}

/// The spans of a table cell: only Textile marks them, after its header and
/// alignment markers.
pub open spec fn table_cell_spans(cell: Seq<char>, flavor: Flavor) -> (u32, u32) {
    if flavor == Flavor::Textile {
        let c1 = without_prefix(trim_spec(cell), "_. "@);
        let c2 = if has_prefix(c1, "<. "@) {
            without_prefix(c1, "<. "@)
        } else if has_prefix(c1, "=. "@) {
            without_prefix(c1, "=. "@)
        } else {
            without_prefix(c1, ">. "@)
        };
        textile_spans(c2, 1, 1)
    } else {
        (1u32, 1u32)
    }
}

pub(crate) fn parse_table_cell(cell: &Vec<char>, flavor: Flavor) -> (c: TableCell)
    ensures
        (c.colspan, c.rowspan) == table_cell_spans(cell@, flavor),
{
    let mut content = trim(cell);
    let mut colspan: u32 = 1;
    let mut rowspan: u32 = 1;
    if flavor == Flavor::Textile {
        proof {
            reveal_strlit("_. ");
            reveal_strlit("<. ");
            reveal_strlit("=. ");
            reveal_strlit(">. ");
        }
        if let Some(rest) = strip_prefix_lit(&content, "_. ") {
            content = rest;
        }
        let ghost c1 = content@;
        if let Some(rest) = strip_prefix_lit(&content, "<. ") {
            content = rest;
        } else if let Some(rest) = strip_prefix_lit(&content, "=. ") {
            content = rest;
        } else if let Some(rest) = strip_prefix_lit(&content, ">. ") {
            content = rest;
        }
        let ghost target = table_cell_spans(cell@, flavor);
        assert(target == textile_spans(content@, 1, 1));
        loop
            invariant
                textile_spans(content@, colspan, rowspan) == target,
            ensures
                (colspan, rowspan) == target,
            decreases content@.len(),
        {
            let marker = first_is(&content, '\\') || first_is(&content, '/');
            if !marker {
                break;
            }
            let col = first_is(&content, '\\');
            let rest = skip(&content, 1);
            let (digits, value) = leading_number(&rest);
            match value {
                Some(v) => {
                    if col {
                        colspan = v as u32;
                    } else {
                        rowspan = v as u32;
                    }
                    let next = trim(&trim_start_char(&skip(&rest, digits), '.'));
                    if next.len() >= content.len() {
                        break;
                    }
                    content = next;
                },
                None => break,
            }
        }
    }
    TableCell::with_span(parse_inlines(&content, flavor), colspan, rowspan)
}

/// A table line: trimmed, it starts and ends with `|`.
pub open spec fn pipe_line(l: Seq<char>) -> bool {
    let t = trim_spec(l);
    t.len() > 0 && t[0] == '|' && t.last() == '|'
}

/// The end of the run of table lines from `k`.
pub open spec fn pipe_run_end(lines: Seq<Seq<char>>, k: int) -> int
    decreases lines.len() - k,
{
    if 0 <= k < lines.len() && pipe_line(lines[k]) {
        pipe_run_end(lines, k + 1)
    } else {
        k
    }
}

fn parse_table(cur: &mut LineCursor, flavor: Flavor) -> (r: Result<Block, ParseError>)
    requires
        old(cur).wf(),
        old(cur).pos < old(cur).lines.len(),
    ensures
        final(cur).moved_from(old(cur)),
        r is Ok ==> final(cur).pos > old(cur).pos,
        final(cur).pos == pipe_run_end(views(old(cur).lines@), old(cur).pos as int),
        (r is Err) == (final(cur).pos == old(cur).pos),
        r matches Ok(b) ==> b is Table,
{
    let ghost ls = views(cur.lines@);
    let mut raw: Vec<Vec<Vec<char>>> = Vec::new();
    while !cur.at_end()
        invariant_except_break
            pipe_run_end(ls, old(cur).pos as int) == pipe_run_end(ls, cur.pos as int),
        invariant
            cur.moved_from(old(cur)),
            raw@.len() == cur.pos - old(cur).pos,
            ls == views(cur.lines@),
        ensures
            pipe_run_end(ls, old(cur).pos as int) == cur.pos,
        decreases cur.lines.len() - cur.pos,
    {
        let line = cur.trimmed();
        assert(line@ == trim_spec(ls[cur.pos as int]));
        if !first_is(&line, '|') || !last_is(&line, '|') {
            break;
        }
        raw.push(split_pipe_row(&line));
        cur.pos += 1;
    }
    if raw.len() == 0 {
        return Err(ParseError::invalid("empty table"));
    }
    Ok(table_from_rows(raw, flavor))
}

/// The table that rows of pipe-separated cells describe: a separator row
/// marks the header (the row above it) and the alignments; in Textile a row of
/// `_. ` cells is the header.
pub(crate) fn table_from_rows(raw: Vec<Vec<Vec<char>>>, flavor: Flavor) -> (b: Block)
    ensures
        b is Table,
{
    let mut alignments: Vec<ColumnAlignment> = Vec::new();
    let mut textile_header: Option<usize> = None;
    if flavor == Flavor::Textile {
        let mut i: usize = 0;
        while i < raw.len()
            invariant
                i <= raw.len(),
            decreases raw.len() - i,
        {
            let row = &raw[i];
            let mut all = true;
            let mut k: usize = 0;
            while k < row.len()
                invariant
                    k <= row.len(),
                decreases row.len() - k,
            {
                if !starts_with_lit(&row[k], "_. ") {
                    all = false;
                }
                k += 1;
            }
            if all {
                textile_header = Some(i);
                let mut k: usize = 0;
                while k < row.len()
                    invariant
                        k <= row.len(),
                    decreases row.len() - k,
                {
                    alignments.push(textile_alignment(&row[k]));
                    k += 1;
                }
                break;
            }
            i += 1;
        }
    }
    let mut header_index: Option<usize> = None;
    let mut i: usize = 0;
    while i < raw.len()
        invariant
            i <= raw.len(),
        decreases raw.len() - i,
    {
        let row = &raw[i];
        if all_separators(row, flavor) {
            header_index = if i > 0 {
                Some(i - 1)
            } else {
                None
            };
            alignments = Vec::new();
            let mut k: usize = 0;
            while k < row.len()
                invariant
                    k <= row.len(),
                decreases row.len() - k,
            {
                alignments.push(separator_alignment(&row[k]));
                k += 1;
            }
            break;
        }
        i += 1;
    }
    let header_pos = match header_index {
        Some(h) => h,
        None => match textile_header {
            Some(t) => t,
            None => 0,
        },
    };
    let mut headers: Vec<TableCell> = Vec::new();
    let mut rows: Vec<Vec<TableCell>> = Vec::new();
    let mut i: usize = 0;
    while i < raw.len()
        invariant
            i <= raw.len(),
        decreases raw.len() - i,
    {
        let row = &raw[i];
        if !all_separators(row, flavor) {
            let mut cells: Vec<TableCell> = Vec::new();
            let mut k: usize = 0;
            while k < row.len()
                invariant
                    k <= row.len(),
                decreases row.len() - k,
            {
                cells.push(parse_table_cell(&row[k], flavor));
                k += 1;
            }
            if i == header_pos {
                headers = cells;
            } else {
                rows.push(cells);
            }
        }
        i += 1;
    }
    if alignments.len() == 0 {
        alignments = default_alignments(headers.len());
    }
    Block::Table { headers, alignments, rows }
}

pub open spec fn indented_marker_of(line: Seq<char>, flavor: Flavor) -> Option<(usize, bool, u32, usize)> {
    let indent = leading_spec(line, ' ');
    let rest = line.subrange(indent as int, line.len() as int);
    let d = digits_from(rest, 0);
    if has_prefix(rest, "- "@) || has_prefix(rest, "+ "@) || (flavor == Flavor::Djot && has_prefix(
        rest,
        "* "@,
    )) {
        Some((indent as usize, false, 1, 2))
    } else if d > 0 && rest.len() - d > 1 && (rest[d] == '.' || rest[d] == ')') && rest[d + 1] == ' ' {
        match parse_unsigned_spec(rest.subrange(0, d), 4294967295) {
            Some(v) => Some((indent as usize, true, v as u32, (d + 2) as usize)),
            None => None,
        }
    } else {
        None
    }
}

/// A list marker at the start of a line: its indentation (spaces), whether
/// it is ordered, the item number, and the marker's length.
pub(crate) fn indented_marker(line: &Vec<char>, flavor: Flavor) -> (r: Option<(usize, bool, u32, usize)>)
    ensures
        r matches Some((indent, _, _, len)) ==> indent + len <= line@.len(),
        r == indented_marker_of(line@, flavor),
{
    let indent = count_leading(line, ' ');
    let rest = skip(line, indent);
    if starts_with_lit(&rest, "- ") || starts_with_lit(&rest, "+ ") || (flavor == Flavor::Djot
        && starts_with_lit(&rest, "* ")) {
        proof {
            reveal_strlit("- ");
            reveal_strlit("+ ");
            reveal_strlit("* ");
        }
        return Some((indent, false, 1, 2));
    }
    let (digits, value) = leading_number(&rest);
    if digits > 0 && rest.len() - digits > 1 && (rest[digits] == '.' || rest[digits] == ')')
        && rest[digits + 1] == ' ' {
        match value {
            Some(v) => return Some((indent, true, v as u32, digits + 2)),
            None => return None,
        }
    }
    None
}

/// A Textile list marker: its kind (`*` or `#`), level, start number, and the
/// item's text.
pub open spec fn textile_marker_of(line: Seq<char>) -> Option<(char, int, u32, Seq<char>)> {
    let t = trim_start_spec(line);
    if t.len() == 0 || (t[0] != '*' && t[0] != '#') {
        None
    } else {
        let kind = t[0];
        let level = leading_spec(t, kind);
        let rest = t.subrange(level as int, t.len() as int);
        let d = digits_from(rest, 0);
        let after = rest.subrange(d, rest.len() as int);
        let start: Option<u32> = if d == 0 {
            Some(1u32)
        } else {
            match parse_unsigned_spec(rest.subrange(0, d), 4294967295) {
                Some(v) => Some(v as u32),
                None => None,
            }
        };
        match start {
            Some(s) => if after.len() > 0 && after[0] == ' ' {
                Some((kind, level as int, s, after.subrange(1, after.len() as int)))
            } else {
                None
            },
            None => None,
        }
    }
}

/// The views of a Textile marker.
pub open spec fn textile_marker_view(r: Option<(char, usize, u32, Vec<char>)>) -> Option<(char, int, u32, Seq<char>)> {
    match r {
        Some((k, l, s, text)) => Some((k, l as int, s, text@)),
        None => None,
    }
}

/// A Textile list marker: its kind (`*` or `#`), level, start number, and the
/// item's text.
pub(crate) fn textile_marker(line: &Vec<char>) -> (r: Option<(char, usize, u32, Vec<char>)>)
    ensures
        textile_marker_view(r) == textile_marker_of(line@),
{
    let t = trim_start(line);
    if t.len() == 0 || (t[0] != '*' && t[0] != '#') {
        return None;
    }
    let kind = t[0];
    let level = count_leading(&t, kind);
    let rest = skip(&t, level);
    let (digits, value) = leading_number(&rest);
    let start: u32 = if digits == 0 {
        1
    } else {
        match value {
            Some(v) => v as u32,
            None => return None,
        }
    };
    let after = skip(&rest, digits);
    if first_is(&after, ' ') {
        Some((kind, level, start, skip(&after, 1)))
    } else {
        None
    }
}

fn parse_indented_list(cur: &mut LineCursor, flavor: Flavor, base: usize, ordered: bool) -> (b: Block)
    requires
        old(cur).wf(),
    ensures
        final(cur).moved_from(old(cur)),
    decreases old(cur).lines.len() - old(cur).pos, usize::MAX - base,
{
    let mut items: Vec<ListItem> = Vec::new();
    let mut start: u32 = 1;
    while !cur.at_end()
        invariant
            cur.moved_from(old(cur)),
        decreases cur.lines.len() - cur.pos,
    {
        let (indent, item_ordered, item_start, len) = match indented_marker(&cur.lines[cur.pos], flavor) {
            Some(m) => m,
            None => break,
        };
        if indent != base || item_ordered != ordered {
            break;
        }
        if items.len() == 0 {
            start = item_start;
        }
        let line = cur.line();
        assert(indent + len <= line.len());
        let content = trim_start(&skip(&line, indent + len));
        cur.pos += 1;
        let ghost p0 = cur.pos;
        let mut blocks: Vec<Block> = Vec::new();
        blocks.push(Block::Paragraph { content: parse_inlines(&content, flavor) });
        while !cur.at_end()
            invariant
                cur.moved_from(old(cur)),
                cur.pos >= p0,
            decreases cur.lines.len() - cur.pos,
        {
            let (nested_indent, nested_ordered) = match indented_marker(&cur.lines[cur.pos], flavor) {
                Some((i, o, _, _)) => (i, o),
                None => break,
            };
            if nested_indent <= base {
                break;
            }
            let before = cur.pos;
            blocks.push(parse_indented_list(cur, flavor, nested_indent, nested_ordered));
            if cur.pos == before {
                break;
            }
        }
        items.push(ListItem { content: blocks });
    }
    if ordered {
        Block::OrderedList { start, items }
    } else {
        Block::UnorderedList { items }
    }
}

fn parse_textile_list(cur: &mut LineCursor, level: usize) -> (b: Block)
    requires
        old(cur).wf(),
    ensures
        final(cur).moved_from(old(cur)),
    decreases old(cur).lines.len() - old(cur).pos, usize::MAX - level,
{
    let (kind, start) = if cur.at_end() {
        ('*', 1)
    } else {
        match textile_marker(&cur.lines[cur.pos]) {
            Some((k, _, s, _)) => (k, s),
            None => ('*', 1),
        }
    };
    let ordered = kind == '#';
    let mut items: Vec<ListItem> = Vec::new();
    while !cur.at_end()
        invariant
            cur.moved_from(old(cur)),
        decreases cur.lines.len() - cur.pos,
    {
        let (item_kind, item_level, _, content) = match textile_marker(&cur.lines[cur.pos]) {
            Some(m) => m,
            None => break,
        };
        if item_level < level {
            break;
        }
        if item_level > level {
            let before = cur.pos;
            let nested = parse_textile_list(cur, item_level);
            push_to_last_item(&mut items, nested);
            if cur.pos == before {
                break;
            }
            continue;
        }
        if item_kind != kind {
            break;
        }
        items.push(paragraph_item(parse_inlines(&content, Flavor::Textile)));
        cur.pos += 1;
    }
    if ordered {
        Block::OrderedList { start, items }
    } else {
        Block::UnorderedList { items }
    }
}

fn is_description_start(cur: &LineCursor, flavor: Flavor) -> (b: bool)
    requires
        cur.pos < cur.lines.len(),
    ensures
        b ==> has_mark(trim_spec(cur.lines@[cur.pos as int]@)),
{
    let line = current_trimmed(cur);
    proof {
        reveal_strlit(": ");
        reveal_strlit("- ");
        lemma_prefix_mark(line@, ": "@, 0);
        lemma_prefix_mark(line@, "- "@, 0);
    }
    match flavor {
        Flavor::Djot => starts_with_lit(&line, ": "),
        Flavor::Org => starts_with_lit(&line, "- ") && contains_lit(&line, " :: "),
        Flavor::Textile => starts_with_lit(&line, "- ") && contains_lit(&line, " := "),
    }
}

fn parse_description_list(cur: &mut LineCursor, flavor: Flavor) -> (r: Result<Block, ParseError>)
    requires
        old(cur).wf(),
    ensures
        final(cur).moved_from(old(cur)),
{
    let mut items: Vec<DescriptionItem> = Vec::new();
    while !cur.at_end() && is_description_start(cur, flavor)
        invariant
            cur.moved_from(old(cur)),
        decreases cur.lines.len() - cur.pos,
    {
        let ghost p0 = cur.pos;
        let line = cur.trimmed();
        let (term, definition) = match flavor {
            Flavor::Djot => {
                let term = trim_start_matches_lit(&line, ": ");
                cur.pos += 1;
                while !cur.at_end() && is_blank(&cur.lines[cur.pos])
                    invariant
                        cur.moved_from(old(cur)),
                        cur.pos > p0,
                    decreases cur.lines.len() - cur.pos,
                {
                    cur.pos += 1;
                }
                let definition = if cur.at_end() {
                    Vec::new()
                } else {
                    cur.trimmed()
                };
                if !cur.at_end() {
                    cur.pos += 1;
                }
                (term, definition)
            },
            Flavor::Org => {
                cur.pos += 1;
                let content = trim_start_matches_lit(&line, "- ");
                match split_once_lit(&content, " :: ") {
                    Some(p) => p,
                    None => return Err(ParseError::invalid("invalid Org description item")),
                }
            },
            Flavor::Textile => {
                cur.pos += 1;
                let content = trim_end_matches_lit(
                    &trim_end_matches_lit(&trim_start_matches_lit(&line, "- "), " =-"),
                    "=-",
                );
                match split_once_lit(&content, " := ") {
                    Some(p) => p,
                    None => return Err(ParseError::invalid("invalid Textile definition item")),
                }
            },
        };
        let mut def: Vec<Block> = Vec::new();
        def.push(Block::Paragraph { content: parse_inlines(&definition, flavor) });
        let mut defs: Vec<Vec<Block>> = Vec::new();
        defs.push(def);
        items.push(DescriptionItem { term: parse_inlines(&term, flavor), definitions: defs });
    }
    Ok(Block::DescriptionList { items })
}

fn starts_block(cur: &LineCursor, flavor: Flavor) -> bool
    requires
        cur.pos < cur.lines.len(),
{
    heading_preview(cur, flavor) || is_horizontal_rule(cur, flavor) || is_code_start(cur, flavor)
        || is_quote_start(cur, flavor) || is_table_start(cur) || (flavor != Flavor::Textile
        && indented_marker(&cur.lines[cur.pos], flavor).is_some()) || textile_marker(
        &cur.lines[cur.pos],
    ).is_some() || is_description_start(cur, flavor)
}

/// The trimmed line `t` looks like a heading of the flavor: `# ` in Djot,
/// one to six `*` and a space in Org, `h`, a digit and a `. ` in Textile.
pub open spec fn heading_like(t: Seq<char>, flavor: Flavor) -> bool {
    match flavor {
        Flavor::Djot => has_prefix(t, "# "@),
        Flavor::Org => {
            let n = leading_spec(t, '*');
            n > 0 && n <= 6 && n < t.len() && t[n as int] == ' '
        },
        Flavor::Textile => t.len() > 1 && t[0] == 'h' && is_digit_spec(t[1]) && contains_spec(t, ". "@),
    }
}

fn heading_preview(cur: &LineCursor, flavor: Flavor) -> (b: bool)
    requires
        cur.pos < cur.lines.len(),
    ensures
        b == heading_like(trim_spec(cur.lines@[cur.pos as int]@), flavor),
{
    let line = current_trimmed(cur);
    match flavor {
        Flavor::Djot => starts_with_lit(&line, "# "),
        Flavor::Org => {
            let n = count_leading(&line, '*');
            n > 0 && n <= 6 && n < line.len() && line[n] == ' '
        },
        Flavor::Textile => first_is(&line, 'h') && line.len() > 1 && is_digit(line[1])
            && contains_lit(&line, ". "),
    }
}

fn parse_paragraph(cur: &mut LineCursor, flavor: Flavor) -> (b: Block)
    requires
        old(cur).wf(),
    ensures
        final(cur).moved_from(old(cur)),
        b is Paragraph,
        old(cur).pos + 1 == old(cur).lines@.len() && plain_line(old(cur).lines@[old(cur).pos as int]@)
            ==> final(cur).pos == old(cur).lines@.len(),
        old(cur).pos + 1 == old(cur).lines@.len() && plain_line(old(cur).lines@[old(cur).pos as int]@)
            ==> (b matches Block::Paragraph { content } && reads_as_plain_text(content@, old(cur).lines@[old(cur).pos as int]@)),
{
    let ghost single = old(cur).pos + 1 == old(cur).lines@.len() && plain_line(old(cur).lines@[old(cur).pos as int]@);
    let ghost l0 = if old(cur).pos < old(cur).lines@.len() {
        old(cur).lines@[old(cur).pos as int]@
    } else {
        Seq::<char>::empty()
    };
    let mut ls: Vec<Vec<char>> = Vec::new();
    while !cur.at_end()
        invariant
            cur.moved_from(old(cur)),
            single == (old(cur).pos + 1 == old(cur).lines@.len() && plain_line(old(cur).lines@[old(cur).pos as int]@)),
            single ==> l0 == old(cur).lines@[old(cur).pos as int]@,
            single ==> (cur.pos == old(cur).pos && ls@.len() == 0) || (cur.pos == old(cur).pos + 1 && views(ls@) == seq![l0]),
        ensures
            single ==> cur.pos == old(cur).pos + 1 && views(ls@) == seq![l0],
        decreases cur.lines.len() - cur.pos,
    {
        let line = cur.line();
        proof {
            if single {
                lemma_plain_line(l0, flavor);
            }
        }
        if is_blank(&line) || (ls.len() > 0 && starts_block(cur, flavor)) {
            break;
        }
        let content = if flavor == Flavor::Textile {
            match strip_prefix_lit(&line, "p. ") {
                Some(r) => r,
                None => line,
            }
        } else {
            line
        };
        let ghost ls0 = ls@;
        ls.push(content);
        proof {
            if single {
                assert(views(ls@) =~= views(ls0).push(l0));
            }
        }
        cur.pos += 1;
    }
    let text = join(&ls, "\n");
    proof {
        if single {
            assert(views(ls@)[0] == l0);
            assert(text@ == l0);
            lemma_plain_line(l0, flavor);
        }
    }
    Block::Paragraph { content: parse_inlines(&text, flavor) }
}

// ---------------------------------------------------------------------------
// Inline parsing
// ---------------------------------------------------------------------------

fn flush_text(result: &mut Vec<Inline>, text: &mut Vec<char>)
    requires
        no_adjacent_text(old(result)@),
    ensures
        no_adjacent_text(final(result)@),
        final(text)@.len() == 0,
        old(text)@.len() == 0 ==> final(result)@ == old(result)@,
        old(text)@.len() > 0 && old(result)@.len() == 0 ==> final(result)@.len() == 1
            && final(result)@[0] is Text && text_of_inline(final(result)@[0]) == old(text)@,
{
    if text.len() > 0 {
        push_merged(result, Inline::Text(string_of(text)));
    }
    *text = Vec::new();
}

/// A character that can start inline markup in one of the lightweight
/// flavors: a newline, `\\`, `<`, a bracket, `!`, `"`, a backtick, `~`, `=`,
/// `@`, `*`, `_`, `/`, `+`, `-`, `^` or `{`.
pub open spec fn lightweight_markup_char(c: char) -> bool {
    c == '\n' || c == '\\' || c == '<' || c == '[' || c == '!' || c == '"' || c == '`' || c == '~'
        || c == '=' || c == '@' || c == '*' || c == '_' || c == '/' || c == '+' || c == '-' || c
        == '^' || c == '{'
}

/// Text in which no character can start inline markup.
pub open spec fn plain_lightweight(s: Seq<char>) -> bool {
    forall|i: int| 0 <= i < s.len() ==> !lightweight_markup_char(#[trigger] s[i])
}

/// Escaped plain text from `i` on: characters that start no markup, and
/// backslashes each followed by a character that the flavor escapes.
pub open spec fn escaped_plain_from(t: Seq<char>, flavor: Flavor, i: int) -> bool
    decreases t.len() - i,
{
    if i < 0 || i >= t.len() {
        true
    } else if !lightweight_markup_char(t[i]) {
        escaped_plain_from(t, flavor, i + 1)
    } else if t[i] == '\\' && i + 1 < t.len() && is_special(t[i + 1], flavor) {
        escaped_plain_from(t, flavor, i + 2)
    } else {
        false
    }
}

/// The text from `i` on with each backslash dropped before the character it
/// escapes.
pub open spec fn unescaped_from(t: Seq<char>, i: int) -> Seq<char>
    decreases t.len() - i,
{
    if i < 0 || i >= t.len() {
        seq![]
    } else if t[i] == '\\' && i + 1 < t.len() {
        seq![t[i + 1]] + unescaped_from(t, i + 2)
    } else {
        seq![t[i]] + unescaped_from(t, i + 1)
    }
}

/// `r` is the text `x` read as one text inline, or nothing for empty text.
pub open spec fn read_as_text(r: Seq<Inline>, x: Seq<char>) -> bool {
    if x.len() == 0 {
        r.len() == 0
    } else {
        r.len() == 1 && r[0] is Text && text_of_inline(r[0]) == x
    }
}

/// Parses inline markup of the flavor; adjacent text runs are merged.
/// Escaped plain text reads as its characters without the escaping
/// backslashes.
pub(crate) fn parse_inlines(input: &Vec<char>, flavor: Flavor) -> (r: Vec<Inline>)
    ensures
        no_adjacent_text(r@),
        plain_lightweight(input@) ==> if input@.len() == 0 {
            r@.len() == 0
        } else {
            r@.len() == 1 && r@[0] is Text && text_of_inline(r@[0]) == input@
        },
        escaped_plain_from(input@, flavor, 0) ==> read_as_text(r@, unescaped_from(input@, 0)),
    decreases input@.len(), 2nat,
{
    let n = input.len();
    let mut result: Vec<Inline> = Vec::new();
    let mut text: Vec<char> = Vec::new();
    let mut pos: usize = 0;
    while pos < n
        invariant
            n == input@.len(),
            pos <= n,
            no_adjacent_text(result@),
            plain_lightweight(input@) ==> result@.len() == 0 && text@ == input@.subrange(0, pos as int),
            escaped_plain_from(input@, flavor, 0) ==> result@.len() == 0 && escaped_plain_from(input@, flavor, pos as int)
                && text@ + unescaped_from(input@, pos as int) == unescaped_from(input@, 0),
        decreases n - pos,
    {
        assert(plain_lightweight(input@) ==> !lightweight_markup_char(input@[pos as int]));
        let ghost esc = escaped_plain_from(input@, flavor, 0);
        let ghost t0 = text@;
        proof {
            if esc {
                let c = input@[pos as int];
                assert(!lightweight_markup_char(c) || (c == '\\' && pos + 1 < n && is_special(input@[pos + 1], flavor)));
                if c == '\\' {
                    assert(escaped_plain_from(input@, flavor, pos + 2));
                    assert(input@[pos + 1] != '\n');
                    if pos + 2 < n {
                        assert(input@[pos + 2] != '\n');
                    }
                }
            }
        }
        if input[pos] == '\n' {
            flush_text(&mut result, &mut text);
            push_merged(&mut result, Inline::SoftLineBreak);
            pos += 1;
            continue;
        }
        if let Some((inl, used)) = parse_image_or_link(input, pos, flavor) {
            flush_text(&mut result, &mut text);
            push_merged(&mut result, inl);
            pos = used;
            continue;
        }
        if let Some((inl, used)) = parse_code_inline(input, pos, flavor) {
            flush_text(&mut result, &mut text);
            push_merged(&mut result, inl);
            pos = used;
            continue;
        }
        if let Some((inl, used)) = parse_styled_inline(input, pos, flavor) {
            flush_text(&mut result, &mut text);
            push_merged(&mut result, inl);
            pos = used;
            continue;
        }
        if input[pos] == '\\' && pos + 1 < n && input[pos + 1] == '\n' {
            flush_text(&mut result, &mut text);
            push_merged(&mut result, Inline::HardLineBreak);
            pos += 2;
            continue;
        }
        if input[pos] == '\\' && n - pos > 2 && input[pos + 1] == '\\' && input[pos + 2] == '\n' {
            flush_text(&mut result, &mut text);
            push_merged(&mut result, Inline::HardLineBreak);
            pos += 3;
            continue;
        }
        let br = chars_of("<br>");
        let br2 = chars_of("<br />");
        proof {
            reveal_strlit("<br>");
            reveal_strlit("<br />");
        }
        if matches_at(input, &br2, pos) {
            assert(input@[pos as int] == input@.subrange(pos as int, pos + br2@.len())[0]);
            flush_text(&mut result, &mut text);
            push_merged(&mut result, Inline::HardLineBreak);
            pos += 6;
            continue;
        }
        if matches_at(input, &br, pos) {
            assert(input@[pos as int] == input@.subrange(pos as int, pos + br@.len())[0]);
            flush_text(&mut result, &mut text);
            push_merged(&mut result, Inline::HardLineBreak);
            pos += 4;
            continue;
        }
        if input[pos] == '\\' && pos + 1 < n {
            text.push(input[pos + 1]);
            pos += 2;
            assert(esc ==> text@ + unescaped_from(input@, pos as int) =~= t0 + unescaped_from(input@, pos - 2));
            continue;
        }
        text.push(input[pos]);
        assert(plain_lightweight(input@) ==> text@ =~= input@.subrange(0, pos + 1));
        pos += 1;
        assert(esc ==> text@ + unescaped_from(input@, pos as int) =~= t0 + unescaped_from(input@, pos - 1));
    }
    assert(plain_lightweight(input@) ==> text@ =~= input@);
    proof {
        if escaped_plain_from(input@, flavor, 0) {
            assert(text@ =~= unescaped_from(input@, 0));
        }
    }
    flush_text(&mut result, &mut text);
    result
}

/// A URL that names an image file, by its extension, case aside.
pub open spec fn image_url(url: Seq<char>) -> bool {
    let l = ascii_lower_spec(url);
    has_suffix(l, ".png"@) || has_suffix(l, ".jpg"@) || has_suffix(l, ".jpeg"@) || has_suffix(l, ".gif"@)
        || has_suffix(l, ".svg"@) || has_suffix(l, ".webp"@)
}

/// Whether a URL names an image file (by its extension, case aside).
pub(crate) fn is_image_url(url: &Vec<char>) -> (b: bool)
    ensures
        b == image_url(url@),
{
    let lower = to_ascii_lower(url);
    ends_with_lit(&lower, ".png") || ends_with_lit(&lower, ".jpg") || ends_with_lit(&lower, ".jpeg")
        || ends_with_lit(&lower, ".gif") || ends_with_lit(&lower, ".svg") || ends_with_lit(
        &lower,
        ".webp",
    )
}

/// `i` is the first index from `k` on that holds `c`.
pub open spec fn first_char_at(s: Seq<char>, c: char, k: int, i: int) -> bool {
    &&& k <= i < s.len()
    &&& s[i] == c
    &&& forall|j: int| k <= j < i ==> s[j] != c
}

/// `i` is the first index from `k` on where `p` occurs.
pub open spec fn first_occurrence_at(s: Seq<char>, p: Seq<char>, k: int, i: int) -> bool {
    &&& k <= i
    &&& occurs_at(s, p, i)
    &&& forall|j: int| k <= j < i ==> !occurs_at(s, p, j)
}

/// `x` is an image (when `image`) or a link to `url`, without a title; what
/// its label holds is the label's text read as inline markup.
pub open spec fn link_or_image(x: Inline, image: bool, url: Seq<char>, label: Seq<char>, flavor: Flavor) -> bool {
    match x {
        Inline::Image { url: u, title, link, alt } => image && u@ == url && title is None && link is None
            && label_read(alt@, label, flavor),
        Inline::Link { url: u, title, text } => !image && u@ == url && title is None && label_read(
            text@,
            label,
            flavor,
        ),
        _ => false,
    }
}

/// `children` is the inline reading of `label`: text runs merged, a label
/// without markup read as its text, and escaped plain text read as its text
/// without the escaping backslashes.
pub open spec fn label_read(children: Seq<Inline>, label: Seq<char>, flavor: Flavor) -> bool {
    &&& no_adjacent_text(children)
    &&& plain_lightweight(label) ==> if label.len() == 0 {
        children.len() == 0
    } else {
        children.len() == 1 && children[0] is Text && text_of_inline(children[0]) == label
    }
    &&& escaped_plain_from(label, flavor, 0) ==> read_as_text(children, unescaped_from(label, 0))
}

/// The closing `]` of a Djot link label at `close`, `(` right after it, and
/// the closing `)` at `end`: each the first from where it is looked for.
pub open spec fn djot_parts(s: Seq<char>, start: int, close: int, end: int) -> bool {
    &&& first_char_at(s, ']', start, close)
    &&& close + 1 < s.len()
    &&& s[close + 1] == '('
    &&& first_char_at(s, ')', close + 2, end)
}

/// `![` at `pos`: an image rather than a link.
pub open spec fn djot_image_at(s: Seq<char>, pos: int) -> bool {
    pos + 1 < s.len() && s[pos] == '!' && s[pos + 1] == '['
}

/// Where the label of a Djot link or image at `pos` starts.
pub open spec fn djot_label_start(s: Seq<char>, pos: int) -> int {
    if djot_image_at(s, pos) {
        pos + 2
    } else {
        pos + 1
    }
}

/// A Djot link `[label](url)` or image `![label](url)` at `pos`: it ends after
/// the first `)` that follows the first `]` when `(` comes right after that `]`.
pub open spec fn djot_link_at(s: Seq<char>, pos: int, r: Option<(Inline, usize)>) -> bool {
    let image = djot_image_at(s, pos);
    let start = djot_label_start(s, pos);
    if !image && s[pos] != '[' {
        r is None
    } else {
        match r {
            Some((x, e)) => exists|close: int, end: int|
                #![trigger djot_parts(s, start, close, end)]
                {
                    &&& djot_parts(s, start, close, end)
                    &&& e == end + 1
                    &&& link_or_image(x, image, s.subrange(close + 2, end), s.subrange(start, close), Flavor::Djot)
                },
            None => forall|close: int, end: int| !#[trigger] djot_parts(s, start, close, end),
        }
    }
}

/// The first `]]` from `pos` at `end`, past the opening `[[`, and the first
/// `][` of the text between them at `k`.
pub open spec fn org_parts(s: Seq<char>, pos: int, end: int, k: int) -> bool {
    &&& first_occurrence_at(s, "]]"@, pos, end)
    &&& end >= pos + 2
    &&& first_occurrence_at(s.subrange(pos + 2, end), "]["@, 0, k)
}

/// An Org link `[[url][label]]` at `pos`, an image when the URL names an image
/// file: it ends after the first `]]`, and the URL runs to the first `][`.
pub open spec fn org_link_at(s: Seq<char>, pos: int, r: Option<(Inline, usize)>) -> bool {
    if !(pos + 1 < s.len() && s[pos] == '[' && s[pos + 1] == '[') {
        r is None
    } else {
        match r {
            Some((x, e)) => exists|end: int, k: int|
                #![trigger org_parts(s, pos, end, k)]
                {
                    &&& org_parts(s, pos, end, k)
                    &&& e == end + 2
                    &&& link_or_image(
                        x,
                        image_url(s.subrange(pos + 2, pos + 2 + k)),
                        s.subrange(pos + 2, pos + 2 + k),
                        s.subrange(pos + 2 + k + 2, end),
                        Flavor::Org,
                    )
                },
            None => forall|end: int, k: int| !#[trigger] org_parts(s, pos, end, k),
        }
    }
}

/// The last index of `c` in `s`, if any.
pub open spec fn last_index_of(s: Seq<char>, c: char) -> Option<int>
    decreases s.len(),
{
    if s.len() == 0 {
        None
    } else if s.last() == c {
        Some(s.len() - 1)
    } else {
        last_index_of(s.drop_last(), c)
    }
}

/// The first whitespace index of `s` from `k` on, or the length of `s`.
pub open spec fn first_ws_from(s: Seq<char>, k: int) -> int
    decreases s.len() - k,
{
    if k < 0 || k >= s.len() {
        s.len() as int
    } else if is_ws_spec(s[k]) {
        k
    } else {
        first_ws_from(s, k + 1)
    }
}

/// `b` moved back over the `.`, `,` and `;` that end `s[a..b]`.
pub open spec fn url_end_from(s: Seq<char>, a: int, b: int) -> int
    decreases b - a,
{
    if b > a && (s[b - 1] == '.' || s[b - 1] == ',' || s[b - 1] == ';') {
        url_end_from(s, a, b - 1)
    } else {
        b
    }
}

/// The closing `!` of a Textile image at `pos`.
pub open spec fn textile_image_parts(s: Seq<char>, pos: int, end: int) -> bool {
    first_char_at(s, '!', pos + 1, end)
}

/// A Textile image source ending in `)` without a `(` names no image.
pub open spec fn textile_image_fails(src: Seq<char>) -> bool {
    src.len() > 0 && src.last() == ')' && last_index_of(src, '(') is None
}

/// `x` is the Textile image `!src!`: `src` is `url(title)` or `url`.
pub open spec fn textile_image(x: Inline, src: Seq<char>) -> bool {
    match x {
        Inline::Image { url, alt, title, link } => alt@.len() == 0 && link is None && if src.len() > 0
            && src.last() == ')' {
            match last_index_of(src, '(') {
                Some(o) => url@ == src.subrange(0, o) && match title {
                    Some(t) => t@ == src.subrange(o + 1, src.len() - 1),
                    None => false,
                },
                None => false,
            }
        } else {
            url@ == src && title is None
        },
        _ => false,
    }
}

/// The `":` that closes the text of a Textile link at `pos`.
pub open spec fn textile_link_parts(s: Seq<char>, pos: int, close: int) -> bool {
    first_occurrence_at(s, "\":"@, pos + 1, close)
}

/// Where the URL of a Textile link ends: at whitespace, without the `.`, `,`
/// and `;` that end it.
pub open spec fn textile_url_end(s: Seq<char>, close: int) -> int {
    url_end_from(s, close + 2, first_ws_from(s, close + 2))
}

/// A Textile image `!src!` or link `"text":url` at `pos`.
pub open spec fn textile_link_at(s: Seq<char>, pos: int, r: Option<(Inline, usize)>) -> bool {
    if s[pos] == '!' {
        match r {
            Some((x, e)) => exists|end: int|
                #![trigger textile_image_parts(s, pos, end)]
                {
                    &&& textile_image_parts(s, pos, end)
                    &&& e == end + 1
                    &&& !textile_image_fails(s.subrange(pos + 1, end))
                    &&& textile_image(x, s.subrange(pos + 1, end))
                },
            None => forall|end: int|
                #[trigger] textile_image_parts(s, pos, end) ==> textile_image_fails(s.subrange(pos + 1, end)),
        }
    } else if s[pos] == '"' {
        match r {
            Some((x, e)) => exists|close: int|
                #![trigger textile_link_parts(s, pos, close)]
                {
                    &&& textile_link_parts(s, pos, close)
                    &&& e == textile_url_end(s, close)
                    &&& link_or_image(x, false, s.subrange(close + 2, textile_url_end(s, close)), s.subrange(pos + 1, close), Flavor::Textile)
                },
            None => forall|close: int| !#[trigger] textile_link_parts(s, pos, close),
        }
    } else {
        r is None
    }
}

/// A link or image at `pos`, and the index after it.
fn parse_image_or_link(input: &Vec<char>, pos: usize, flavor: Flavor) -> (r: Option<(Inline, usize)>)
    requires
        pos < input.len(),
    ensures
        r matches Some((_, e)) ==> pos < e <= input@.len(),
        flavor == Flavor::Djot ==> djot_link_at(input@, pos as int, r),
        flavor == Flavor::Org ==> org_link_at(input@, pos as int, r),
        flavor == Flavor::Textile ==> textile_link_at(input@, pos as int, r),
    decreases input@.len(), 1nat,
{
    match flavor {
        Flavor::Djot => parse_djot_link(input, pos),
        Flavor::Org => parse_org_link(input, pos),
        Flavor::Textile => parse_textile_link(input, pos),
    }
}

fn parse_djot_link(input: &Vec<char>, pos: usize) -> (r: Option<(Inline, usize)>)
    requires
        pos < input.len(),
    ensures
        r matches Some((_, e)) ==> pos < e <= input@.len(),
        djot_link_at(input@, pos as int, r),
    decreases input@.len(), 0nat,
{
    let ghost s = input@;
    let n = input.len();
    let image = pos + 1 < n && input[pos] == '!' && input[pos + 1] == '[';
    let start = if image {
        pos + 2
    } else if input[pos] == '[' {
        pos + 1
    } else {
        return None;
    };
    let close = match find_char_from(input, ']', start) {
        Some(c) => c,
        None => {
            assert forall|c2: int, end: int| !#[trigger] djot_parts(s, start as int, c2, end) by {}
            assert(djot_link_at(s, pos as int, None));
            return None;
        },
    };
    assert(first_char_at(s, ']', start as int, close as int));
    if close + 1 >= n || input[close + 1] != '(' {
        assert forall|c2: int, end: int| !#[trigger] djot_parts(s, start as int, c2, end) by {
            if first_char_at(s, ']', start as int, c2) {
                assert(c2 == close);
            }
        }
        assert(djot_link_at(s, pos as int, None));
        return None;
    }
    let end = match find_char_from(input, ')', close + 2) {
        Some(e) => e,
        None => {
            assert forall|c2: int, e2: int| !#[trigger] djot_parts(s, start as int, c2, e2) by {
                if first_char_at(s, ']', start as int, c2) {
                    assert(c2 == close);
                }
            }
            assert(djot_link_at(s, pos as int, None));
            return None;
        },
    };
    assert(first_char_at(s, ')', close + 2, end as int));
    let label = substring(input, start, close);
    let url = string_of(&substring(input, close + 2, end));
    let inl = if image {
        Inline::Image { url, alt: parse_inlines(&label, Flavor::Djot), title: None, link: None }
    } else {
        Inline::Link { url, text: parse_inlines(&label, Flavor::Djot), title: None }
    };
    assert(label@ =~= s.subrange(start as int, close as int));
    assert(link_or_image(inl, image, s.subrange(close + 2, end as int), s.subrange(start as int, close as int), Flavor::Djot));
    assert(djot_label_start(s, pos as int) == start);
    assert(djot_parts(s, djot_label_start(s, pos as int), close as int, end as int));
    Some((inl, end + 1))
}

fn parse_org_link(input: &Vec<char>, pos: usize) -> (r: Option<(Inline, usize)>)
    requires
        pos < input.len(),
    ensures
        r matches Some((_, e)) ==> pos < e <= input@.len(),
        org_link_at(input@, pos as int, r),
    decreases input@.len(), 0nat,
{
    let ghost s = input@;
    let n = input.len();
    if !(pos + 1 < n && input[pos] == '[' && input[pos + 1] == '[') {
        return None;
    }
    let close = chars_of("]]");
    proof {
        reveal_strlit("]]");
        reveal_strlit("][");
    }
    let end = match find_from(input, &close, pos) {
        Some(e) => e,
        None => {
            assert forall|e2: int, k: int| !#[trigger] org_parts(s, pos as int, e2, k) by {}
            return None;
        },
    };
    assert(first_occurrence_at(s, "]]"@, pos as int, end as int));
    if end < pos + 2 {
        assert forall|e2: int, k: int| !#[trigger] org_parts(s, pos as int, e2, k) by {
            if first_occurrence_at(s, "]]"@, pos as int, e2) {
                assert(e2 == end);
            }
        }
        return None;
    }
    let body = substring(input, pos + 2, end);
    let (url, label) = match split_once_lit(&body, "][") {
        Some(p) => p,
        None => {
            assert forall|e2: int, k: int| !#[trigger] org_parts(s, pos as int, e2, k) by {
                if first_occurrence_at(s, "]]"@, pos as int, e2) {
                    assert(e2 == end);
                    assert(s.subrange(pos + 2, e2) =~= body@);
                }
            }
            return None;
        },
    };
    let ghost k = choose|i: int|
        {
            &&& occurs_at(body@, "]["@, i)
            &&& forall|j: int| 0 <= j < i ==> !occurs_at(body@, "]["@, j)
            &&& url@ == body@.subrange(0, i)
            &&& label@ == body@.subrange(i + "]["@.len(), body@.len() as int)
        };
    assert(first_occurrence_at(body@, "]["@, 0, k));
    assert(url@ =~= s.subrange(pos + 2, pos + 2 + k));
    let url_s = string_of(&url);
    let inl = if is_image_url(&url) {
        Inline::Image { url: url_s, alt: parse_inlines(&label, Flavor::Org), title: None, link: None }
    } else {
        Inline::Link { url: url_s, text: parse_inlines(&label, Flavor::Org), title: None }
    };
    assert(s.subrange(pos + 2, end as int) =~= body@);
    assert(label@ =~= s.subrange(pos + 2 + k + 2, end as int));
    assert(org_parts(s, pos as int, end as int, k));
    Some((inl, end + 2))
}

fn parse_textile_link(input: &Vec<char>, pos: usize) -> (r: Option<(Inline, usize)>)
    requires
        pos < input.len(),
    ensures
        r matches Some((_, e)) ==> pos < e <= input@.len(),
        textile_link_at(input@, pos as int, r),
    decreases input@.len(), 0nat,
{
    let ghost s = input@;
    let n = input.len();
    if input[pos] == '!' {
        let end = match find_char_from(input, '!', pos + 1) {
            Some(e) => e,
            None => {
                assert forall|e2: int| #[trigger] textile_image_parts(s, pos as int, e2) implies textile_image_fails(
                    s.subrange(pos + 1, e2),
                ) by {}
                return None;
            },
        };
        assert(textile_image_parts(s, pos as int, end as int));
        let spec = substring(input, pos + 1, end);
        let (url, title) = if last_is(&spec, ')') {
            match find_last_char(&spec, '(') {
                Some(open) => (
                    substring(&spec, 0, open),
                    Some(string_of(&substring(&spec, open + 1, spec.len() - 1))),
                ),
                None => {
                    assert forall|e2: int| #[trigger] textile_image_parts(s, pos as int, e2) implies textile_image_fails(
                        s.subrange(pos + 1, e2),
                    ) by {
                        assert(e2 == end);
                    }
                    return None;
                },
            }
        } else {
            (spec, None)
        };
        let inl = Inline::Image { url: string_of(&url), alt: Vec::new(), title, link: None };
        assert(textile_image(inl, s.subrange(pos + 1, end as int)));
        return Some((inl, end + 1));
    }
    if input[pos] != '"' {
        return None;
    }
    let marker = chars_of("\":");
    proof {
        reveal_strlit("\":");
    }
    let close = match find_from(input, &marker, pos + 1) {
        Some(c) => c,
        None => {
            assert forall|c2: int| !#[trigger] textile_link_parts(s, pos as int, c2) by {}
            return None;
        },
    };
    assert(textile_link_parts(s, pos as int, close as int));
    let url_start = close + 2;
    let mut raw_end = url_start;
    while raw_end < n && !is_ws(input[raw_end])
        invariant
            url_start <= raw_end <= n,
            n == input@.len(),
            s == input@,
            first_ws_from(s, url_start as int) == first_ws_from(s, raw_end as int),
        decreases n - raw_end,
    {
        raw_end += 1;
    }
    let mut url_end = raw_end;
    while url_end > url_start && (input[url_end - 1] == '.' || input[url_end - 1] == ','
        || input[url_end - 1] == ';')
        invariant
            url_start <= url_end <= raw_end <= n,
            n == input@.len(),
            s == input@,
            url_end_from(s, url_start as int, raw_end as int) == url_end_from(s, url_start as int, url_end as int),
        decreases url_end,
    {
        url_end -= 1;
    }
    assert(url_end == textile_url_end(s, close as int));
    let text = substring(input, pos + 1, close);
    if url_end <= pos {
        return None;
    }
    let inl = Inline::Link {
        url: string_of(&substring(input, url_start, url_end)),
        text: parse_inlines(&text, Flavor::Textile),
        title: None,
    };
    assert(text@ =~= s.subrange(pos + 1, close as int));
    assert(link_or_image(inl, false, s.subrange(close + 2, textile_url_end(s, close as int)), s.subrange(pos + 1, close as int), Flavor::Textile));
    Some((inl, url_end))
}

/// The index of the last `c` in `s`.
fn find_last_char(s: &Vec<char>, c: char) -> (r: Option<usize>)
    ensures
        match r {
            Some(i) => last_index_of(s@, c) == Some(i as int),
            None => last_index_of(s@, c) is None,
        },
        r matches Some(i) ==> i < s@.len() && s@[i as int] == c,
{
    let mut k = s.len();
    assert(s@.subrange(0, k as int) =~= s@);
    while k > 0
        invariant
            k <= s.len(),
            last_index_of(s@, c) == last_index_of(s@.subrange(0, k as int), c),
        decreases k,
    {
        let ghost pre = s@.subrange(0, k as int);
        k -= 1;
        assert(pre.drop_last() =~= s@.subrange(0, k as int));
        if s[k] == c {
            return Some(k);
        }
    }
    None
}

/// Inline code at `pos`, and the index after it.
/// The character that delimits inline code starting with `c`: a backtick in
/// Djot, `~` or `=` in Org, `@` in Textile.
pub open spec fn code_delim(c: char, flavor: Flavor) -> Option<char> {
    match flavor {
        Flavor::Djot => if c == '`' { Some(c) } else { None },
        Flavor::Org => if c == '~' || c == '=' { Some(c) } else { None },
        Flavor::Textile => if c == '@' { Some(c) } else { None },
    }
}

/// What reading inline code at `pos` gives: where the delimiter opens there,
/// the text up to its next occurrence (not empty) as code, and the index
/// after the closing delimiter; nothing otherwise.
pub open spec fn code_inline_at(s: Seq<char>, pos: int, flavor: Flavor, r: Option<(Inline, usize)>) -> bool {
    match code_delim(s[pos], flavor) {
        None => r is None,
        Some(d) => match r {
            Some((x, e)) => e >= pos + 3 && first_char_at(s, d, pos + 1, e - 1) && (x matches Inline::InlineCode(
                c,
            ) && c@ == s.subrange(pos + 1, e - 1)),
            None => forall|i: int| #[trigger] first_char_at(s, d, pos + 1, i) ==> i == pos + 1,
        },
    }
}

fn parse_code_inline(input: &Vec<char>, pos: usize, flavor: Flavor) -> (r: Option<(Inline, usize)>)
    requires
        pos < input.len(),
    ensures
        r matches Some((_, e)) ==> pos < e <= input@.len(),
        r is Some ==> lightweight_markup_char(input@[pos as int]),
        code_inline_at(input@, pos as int, flavor, r),
{
    let c = input[pos];
    let delim = match flavor {
        Flavor::Djot => '`',
        Flavor::Org => {
            if c == '~' || c == '=' {
                c
            } else {
                return None;
            }
        },
        Flavor::Textile => '@',
    };
    if c != delim {
        return None;
    }
    let end = match find_char_from(input, delim, pos + 1) {
        Some(e) => e,
        None => return None,
    };
    assert(first_char_at(input@, delim, pos + 1, end as int));
    if end == pos + 1 {
        return None;
    }
    Some((Inline::InlineCode(string_of(&substring(input, pos + 1, end))), end + 1))
}

/// The emphasis delimiters of a flavor, in the order they are tried, with
/// the inline kind each makes: 1 bold, 2 italic, 3 strikethrough,
/// 4 superscript, 5 subscript.
/// The openers of styled text in each flavor, in the order they are tried,
/// with the kind of style each gives.
pub open spec fn styled_openers(flavor: Flavor) -> Seq<(Seq<char>, u8)> {
    match flavor {
        Flavor::Djot => seq![("{-"@, 3u8), ("*"@, 1u8), ("_"@, 2u8), ("^"@, 4u8), ("~"@, 5u8)],
        Flavor::Org => seq![("*"@, 1u8), ("/"@, 2u8), ("+"@, 3u8)],
        Flavor::Textile => seq![("*"@, 1u8), ("_"@, 2u8), ("-"@, 3u8), ("^"@, 4u8), ("~"@, 5u8)],
    }
}

fn styled_candidates(flavor: Flavor) -> (v: Vec<(&'static str, u8)>)
    ensures
        forall|k: int|
            0 <= k < v@.len() ==> (#[trigger] v@[k]).0@.len() > 0 && lightweight_markup_char(v@[k].0@[0])
                && v@[k].0@[0] != '\\',
        v@.len() == styled_openers(flavor).len(),
        forall|k: int| 0 <= k < v@.len() ==> ((#[trigger] v@[k]).0@, v@[k].1) == styled_openers(flavor)[k],
{
    proof {
        reveal_strlit("{-");
        reveal_strlit("*");
        reveal_strlit("_");
        reveal_strlit("^");
        reveal_strlit("~");
        reveal_strlit("/");
        reveal_strlit("+");
        reveal_strlit("-");
    }
    let mut v: Vec<(&'static str, u8)> = Vec::new();
    match flavor {
        Flavor::Djot => {
            v.push(("{-", 3));
            v.push(("*", 1));
            v.push(("_", 2));
            v.push(("^", 4));
            v.push(("~", 5));
        },
        Flavor::Org => {
            v.push(("*", 1));
            v.push(("/", 2));
            v.push(("+", 3));
        },
        Flavor::Textile => {
            v.push(("*", 1));
            v.push(("_", 2));
            v.push(("-", 3));
            v.push(("^", 4));
            v.push(("~", 5));
        },
    }
    v
}

fn styled(kind: u8, content: Vec<Inline>) -> Inline {
    if kind == 1 {
        Inline::Bold(content)
    } else if kind == 2 {
        Inline::Italic(content)
    } else if kind == 3 {
        Inline::Strikethrough(content)
    } else if kind == 4 {
        Inline::Superscript(content)
    } else {
        Inline::Subscript(content)
    }
}

/// Emphasis at `pos`, and the index after it.
fn parse_styled_inline(input: &Vec<char>, pos: usize, flavor: Flavor) -> (r: Option<(Inline, usize)>)
    requires
        pos < input.len(),
    ensures
        r matches Some((_, e)) ==> pos < e <= input@.len(),
        r is Some ==> lightweight_markup_char(input@[pos as int]),
        r is Some ==> input@[pos as int] != '\\',
    decreases input@.len(), 1nat,
{
    let candidates = styled_candidates(flavor);
    let mut k: usize = 0;
    while k < candidates.len()
        invariant
            k <= candidates.len(),
            pos < input.len(),
            forall|j: int|
                0 <= j < candidates@.len() ==> (#[trigger] candidates@[j]).0@.len() > 0
                    && lightweight_markup_char(candidates@[j].0@[0]) && candidates@[j].0@[0] != '\\',
        decreases candidates.len() - k,
    {
        let (open_s, kind) = candidates[k];
        let open = chars_of(open_s);
        assert(open@ == candidates@[k as int].0@);
        if open.len() > 0 && matches_at(input, &open, pos) {
            assert(input@[pos as int] == input@.subrange(pos as int, pos + open@.len())[0]);
            assert(pos + open@.len() <= input.len());
            let close = if eq_lit(&open, "{-") {
                chars_of("-}")
            } else {
                copy(&open)
            };
            if close.len() == 0 {
                return None;
            }
            let inner_start = pos + open.len();
            let end = match find_from(input, &close, inner_start) {
                Some(e) => e,
                None => return None,
            };
            let inner = substring(input, inner_start, end);
            if end == inner_start || is_blank(&inner) {
                k += 1;
                continue;
            }
            return Some((styled(kind, parse_inlines(&inner, flavor)), end + close.len()));
        }
        k += 1;
    }
    if flavor == Flavor::Org && pos + 1 < input.len() && (input[pos] == '^' || input[pos] == '_')
        && input[pos + 1] == '{' {
        let end = match find_char_from(input, '}', pos) {
            Some(e) => e,
            None => return None,
        };
        if end < pos + 2 {
            return None;
        }
        let content = parse_inlines(&substring(input, pos + 2, end), flavor);
        let inl = if input[pos] == '^' {
            Inline::Superscript(content)
        } else {
            Inline::Subscript(content)
        };
        return Some((inl, end + 1));
    }
    None
}

// ---------------------------------------------------------------------------
// Writing
// ---------------------------------------------------------------------------

/// Writes blocks in the flavor; the text ends with exactly one newline.
pub fn emit_document(blocks: &Vec<Block>, flavor: Flavor) -> (s: String)
    ensures
        s@ == finished(blocks_text(seq![], blocks@, flavor)),
        ends_with_single_newline(s@),
{
    let mut out: Vec<char> = Vec::new();
    emit_blocks(&mut out, blocks, flavor);
    finish_output(&out)
}

/// The characters that text escapes with a backslash in a flavor.
pub open spec fn is_special(c: char, flavor: Flavor) -> bool {
    match flavor {
        Flavor::Djot => c == '\\' || c == '*' || c == '_' || c == '`' || c == '[' || c == ']',
        Flavor::Org => c == '\\' || c == '*' || c == '/' || c == '+' || c == '~' || c == '=' || c
            == '[' || c == ']',
        Flavor::Textile => c == '\\' || c == '*' || c == '_' || c == '@' || c == '"' || c == '!',
    }
}

/// Text with a backslash before each special character.
pub open spec fn escape_spec(s: Seq<char>, flavor: Flavor) -> Seq<char>
    decreases s.len(),
{
    if s.len() == 0 {
        Seq::empty()
    } else {
        escape_spec(s.drop_last(), flavor) + if is_special(s.last(), flavor) {
            seq!['\\', s.last()]
        } else {
            seq![s.last()]
        }
    }
}

/// Text of plain characters needs no escape in any flavor.
pub proof fn lemma_escape_plain(t: Seq<char>, flavor: Flavor)
    requires
        forall|i: int| 0 <= i < t.len() ==> plain_char(#[trigger] t[i]),
    ensures
        escape_spec(t, flavor) == t,
    decreases t.len(),
{
    if t.len() > 0 {
        lemma_escape_plain(t.drop_last(), flavor);
        assert(plain_char(t.last()));
        assert(!is_special(t.last(), flavor));
        assert(t.drop_last().push(t.last()) =~= t);
    }
}

/// Escaping a concatenation escapes each part.
proof fn lemma_escape_concat(a: Seq<char>, b: Seq<char>, flavor: Flavor)
    ensures
        escape_spec(a + b, flavor) == escape_spec(a, flavor) + escape_spec(b, flavor),
    decreases b.len(),
{
    if b.len() == 0 {
        assert(a + b =~= a);
        assert(escape_spec(b, flavor) =~= seq![]);
    } else {
        lemma_escape_concat(a, b.drop_last(), flavor);
        assert((a + b).drop_last() =~= a + b.drop_last());
        assert((a + b).last() == b.last());
    }
}

/// Escaped plain text read after a prefix is read as without it.
proof fn lemma_escaped_plain_shift(p: Seq<char>, r: Seq<char>, flavor: Flavor, j: int)
    requires
        0 <= j <= r.len(),
    ensures
        escaped_plain_from(p + r, flavor, p.len() + j) == escaped_plain_from(r, flavor, j),
        unescaped_from(p + r, p.len() + j) == unescaped_from(r, j),
    decreases r.len() - j,
{
    if j < r.len() {
        assert((p + r)[p.len() + j] == r[j]);
        lemma_escaped_plain_shift(p, r, flavor, j + 1);
        if j + 1 < r.len() {
            assert((p + r)[p.len() + j + 1] == r[j + 1]);
            lemma_escaped_plain_shift(p, r, flavor, j + 2);
        }
    }
}

/// Text escaped by the writer of a flavor reads back as itself, where each
/// of its characters that can start markup is one that the flavor escapes:
/// the escaped text is escaped plain text (see `parse_inlines`), and
/// dropping the escaping backslashes gives the text back.
pub proof fn law_escaped_text_reads_back(s: Seq<char>, flavor: Flavor)
    requires
        forall|i: int| 0 <= i < s.len() && lightweight_markup_char(#[trigger] s[i]) ==> is_special(s[i], flavor),
    ensures
        escaped_plain_from(escape_spec(s, flavor), flavor, 0),
        unescaped_from(escape_spec(s, flavor), 0) == s,
    decreases s.len(),
{
    if s.len() == 0 {
        assert(escape_spec(s, flavor) =~= seq![]);
        assert(unescaped_from(escape_spec(s, flavor), 0) =~= s);
    } else {
        let c = s[0];
        let rest = s.drop_first();
        assert forall|i: int| 0 <= i < rest.len() && lightweight_markup_char(#[trigger] rest[i]) implies is_special(
            rest[i],
            flavor,
        ) by {
            assert(rest[i] == s[i + 1]);
        }
        law_escaped_text_reads_back(rest, flavor);
        assert(s =~= seq![c] + rest);
        lemma_escape_concat(seq![c], rest, flavor);
        assert(seq![c].drop_last() =~= Seq::<char>::empty());
        assert(escape_spec(Seq::<char>::empty(), flavor) =~= Seq::<char>::empty());
        let u = escape_spec(seq![c], flavor);
        let er = escape_spec(rest, flavor);
        let t = escape_spec(s, flavor);
        assert(t == u + er);
        lemma_escaped_plain_shift(u, er, flavor, 0);
        if is_special(c, flavor) {
            assert(u =~= seq!['\\', c]);
            assert(t[0] == '\\' && t[1] == c);
            assert(escaped_plain_from(t, flavor, 0) == escaped_plain_from(t, flavor, 2));
            assert(unescaped_from(t, 0) =~= seq![c] + unescaped_from(t, 2));
        } else {
            assert(u =~= seq![c]);
            assert(t[0] == c);
            assert(!lightweight_markup_char(c));
            assert(c != '\\');
            assert(unescaped_from(t, 0) =~= seq![c] + unescaped_from(t, 1));
        }
        assert(unescaped_from(t, 0) =~= s);
    }
}

/// Escapes the characters that would otherwise be read as markup.
pub(crate) fn escape_text(text: &Vec<char>, flavor: Flavor) -> (v: Vec<char>)
    ensures
        v@ == escape_spec(text@, flavor),
{
    let mut v: Vec<char> = Vec::new();
    let mut i: usize = 0;
    while i < text.len()
        invariant
            i <= text.len(),
            v@ == escape_spec(text@.subrange(0, i as int), flavor),
        decreases text.len() - i,
    {
        let c = text[i];
        let special = match flavor {
            Flavor::Djot => c == '\\' || c == '*' || c == '_' || c == '`' || c == '[' || c == ']',
            Flavor::Org => c == '\\' || c == '*' || c == '/' || c == '+' || c == '~' || c == '='
                || c == '[' || c == ']',
            Flavor::Textile => c == '\\' || c == '*' || c == '_' || c == '@' || c == '"' || c == '!',
        };
        if special {
            v.push('\\');
        }
        v.push(c);
        assert(text@.subrange(0, i + 1).drop_last() =~= text@.subrange(0, i as int));
        i += 1;
    }
    assert(text@.subrange(0, text@.len() as int) =~= text@);
    v
}

// ---------------------------------------------------------------------------
// The block text written
// ---------------------------------------------------------------------------

/// The heading marker of a level in a flavor.
pub open spec fn heading_mark(level: u8, flavor: Flavor) -> Seq<char> {
    match flavor {
        Flavor::Djot => repeat_spec('#', level as nat),
        Flavor::Org => repeat_spec('*', level as nat),
        Flavor::Textile => seq!['h'] + decimal(level as nat) + seq!['.'],
    }
}

/// A code block in a flavor.
pub open spec fn code_text(language: Option<String>, content: Seq<char>, flavor: Flavor) -> Seq<char> {
    match flavor {
        Flavor::Djot => "```"@ + (match language {
            Some(l) => seq![' '] + l@,
            None => seq![],
        }) + seq!['\n'] + content + "\n```\n"@,
        Flavor::Org => "#+begin_src"@ + (match language {
            Some(l) => seq![' '] + l@,
            None => seq![],
        }) + seq!['\n'] + content + "\n#+end_src\n"@,
        Flavor::Textile => (match language {
            Some(l) => "bc("@ + l@ + ")..\n"@,
            None => "bc..\n"@,
        }) + content + "\n\np.\n"@,
    }
}

/// Lines each behind `> ` and ended by a newline.
pub open spec fn quote_lines(ls: Seq<Seq<char>>) -> Seq<char>
    decreases ls.len(),
{
    if ls.len() == 0 {
        seq![]
    } else {
        quote_lines(ls.drop_last()) + "> "@ + ls.last() + seq!['\n']
    }
}

/// A quotation of `inner` (the quoted blocks, trailing whitespace trimmed).
pub open spec fn quote_text(inner: Seq<char>, flavor: Flavor) -> Seq<char> {
    match flavor {
        Flavor::Djot => quote_lines(lines_spec(inner)),
        Flavor::Org => "#+begin_quote\n"@ + inner + "\n#+end_quote\n"@,
        Flavor::Textile => "bq..\n"@ + inner + "\n\np.\n"@,
    }
}

/// A raw block in a flavor.
pub open spec fn raw_text(format: Option<String>, content: Seq<char>, flavor: Flavor) -> Seq<char> {
    (match flavor {
        Flavor::Djot => "``` ="@,
        Flavor::Org => "#+begin_export "@,
        Flavor::Textile => "pre..\n"@,
    }) + (if flavor != Flavor::Textile {
        (match format {
            Some(f) => f@,
            None => "text"@,
        }) + seq!['\n']
    } else {
        seq![]
    }) + content + match flavor {
        Flavor::Djot => "\n```\n"@,
        Flavor::Org => "\n#+end_export\n"@,
        Flavor::Textile => "\n\np.\n"@,
    }
}

/// The first paragraph of a definition list entry's first definition.
pub open spec fn first_definition(defs: Seq<Vec<Block>>, flavor: Flavor) -> Seq<char> {
    if defs.len() > 0 && defs[0]@.len() > 0 {
        match defs[0]@[0] {
            Block::Paragraph { content } => inlines_text(content@, flavor),
            _ => seq![],
        }
    } else {
        seq![]
    }
}

/// The entries of a definition list.
pub open spec fn descriptions_text(items: Seq<DescriptionItem>, flavor: Flavor) -> Seq<char>
    decreases items.len(),
{
    if items.len() == 0 {
        seq![]
    } else {
        descriptions_text(items.drop_last(), flavor) + description_text(items.last(), flavor)
    }
}

/// One description item: its term, then the first paragraph of its first definition.
pub open spec fn description_text(item: DescriptionItem, flavor: Flavor) -> Seq<char> {
    (match flavor {
        Flavor::Djot => ": "@ + inlines_text(item.term@, flavor) + "\n\n  "@,
        Flavor::Org => "- "@ + inlines_text(item.term@, flavor) + " :: "@,
        Flavor::Textile => "- "@ + inlines_text(item.term@, flavor) + " := "@,
    }) + first_definition(item.definitions@, flavor) + (if flavor == Flavor::Textile {
        " =-"@
    } else {
        seq![]
    }) + seq!['\n']
}

/// The alignment of column `i`.
pub open spec fn column_alignment(alignments: Seq<ColumnAlignment>, i: int) -> ColumnAlignment {
    if i < alignments.len() {
        alignments[i]
    } else {
        ColumnAlignment::Default
    }
}

/// A table cell's text: in Textile, its spans first.
pub open spec fn cell_text(cell: TableCell, flavor: Flavor) -> Seq<char> {
    (if flavor == Flavor::Textile {
        (if cell.colspan > 1 {
            seq!['\\'] + decimal(cell.colspan as nat) + ". "@
        } else {
            seq![]
        }) + (if cell.rowspan > 1 {
            seq!['/'] + decimal(cell.rowspan as nat) + ". "@
        } else {
            seq![]
        })
    } else {
        seq![]
    }) + inlines_text(cell.content@, flavor)
}

/// The header cells of a table, with Textile's header and alignment marks.
pub open spec fn header_cells(cells: Seq<TableCell>, alignments: Seq<ColumnAlignment>, flavor: Flavor) -> Seq<
    char,
>
    decreases cells.len(),
{
    if cells.len() == 0 {
        seq![]
    } else {
        header_cells(cells.drop_last(), alignments, flavor) + header_cell(
            cells.last(),
            column_alignment(alignments, cells.len() - 1),
            flavor,
        )
    }
}

/// One header cell with alignment `a`.
pub open spec fn header_cell(cell: TableCell, a: ColumnAlignment, flavor: Flavor) -> Seq<char> {
    seq![' '] + (if flavor == Flavor::Textile {
        "_. "@ + match a {
            ColumnAlignment::Left => "<. "@,
            ColumnAlignment::Center => "=. "@,
            ColumnAlignment::Right => ">. "@,
            ColumnAlignment::Default => seq![],
        }
    } else {
        seq![]
    }) + cell_text(cell, flavor) + " |"@
}

/// The delimiter row cells of the first `n` columns.
pub open spec fn delimiter_cells(alignments: Seq<ColumnAlignment>, n: int) -> Seq<char>
    decreases n,
{
    if n <= 0 {
        seq![]
    } else {
        delimiter_cells(alignments, n - 1) + seq![' '] + match column_alignment(alignments, n - 1) {
            ColumnAlignment::Left => ":---"@,
            ColumnAlignment::Center => ":---:"@,
            ColumnAlignment::Right => "---:"@,
            ColumnAlignment::Default => "---"@,
        } + " |"@
    }
}

pub open spec fn body_cells(cells: Seq<TableCell>, flavor: Flavor) -> Seq<char>
    decreases cells.len(),
{
    if cells.len() == 0 {
        seq![]
    } else {
        body_cells(cells.drop_last(), flavor) + seq![' '] + cell_text(cells.last(), flavor) + " |"@
    }
}

pub open spec fn body_rows(rows: Seq<Vec<TableCell>>, flavor: Flavor) -> Seq<char>
    decreases rows.len(),
{
    if rows.len() == 0 {
        seq![]
    } else {
        body_rows(rows.drop_last(), flavor) + seq!['|'] + body_cells(rows.last()@, flavor) + seq!['\n']
    }
}

/// A table in a flavor.
pub open spec fn table_text(
    headers: Seq<TableCell>,
    alignments: Seq<ColumnAlignment>,
    rows: Seq<Vec<TableCell>>,
    flavor: Flavor,
) -> Seq<char> {
    seq!['|'] + header_cells(headers, alignments, flavor) + seq!['\n'] + (if flavor
        != Flavor::Textile {
        seq!['|'] + delimiter_cells(alignments, headers.len() as int) + seq!['\n']
    } else {
        seq![]
    }) + body_rows(rows, flavor)
}

/// Blocks written after `prev`, each after a blank line.
pub open spec fn blocks_text(prev: Seq<char>, s: Seq<Block>, flavor: Flavor) -> Seq<char>
    decreases s, 3nat,
{
    if s.len() == 0 {
        prev
    } else {
        block_text(blocks_text(prev, s.drop_last(), flavor), s.last(), flavor)
    }
}

/// One block written after `prev`.
pub open spec fn block_text(prev: Seq<char>, b: Block, flavor: Flavor) -> Seq<char>
    decreases b, 2nat,
{
    let p = with_blank_line(prev);
    match b {
        Block::Heading { level, content } => p + heading_mark(level, flavor) + seq![' '] + inlines_text(
            content@,
            flavor,
        ) + seq!['\n'],
        Block::Paragraph { content } => if content@.len() > 0 {
            p + inlines_text(content@, flavor) + seq!['\n']
        } else {
            p
        },
        Block::CodeBlock { language, content } => p + code_text(language, content@, flavor),
        Block::BlockQuote { children } => p + quote_text(
            trim_end_spec(finished(blocks_text(seq![], children@, flavor))),
            flavor,
        ),
        Block::UnorderedList { items } => list_text(p, items@, false, 1, 0, flavor),
        Block::OrderedList { start, items } => list_text(p, items@, true, start, 0, flavor),
        Block::DescriptionList { items } => p + descriptions_text(items@, flavor),
        Block::Table { headers, alignments, rows } => p + table_text(
            headers@,
            alignments@,
            rows@,
            flavor,
        ),
        Block::HorizontalRule => p + match flavor {
            Flavor::Djot => "----\n"@,
            Flavor::Org => "-----\n"@,
            Flavor::Textile => "<hr />\n"@,
        },
        Block::RawBlock { format, content } => p + raw_text(format, content@, flavor),
    }
}

/// One level deeper (held in a `usize`).
pub open spec fn deeper_level(depth: int) -> int {
    if depth < usize::MAX {
        depth + 1
    } else {
        depth
    }
}

/// The marker of item `index` of a list at `depth`.
pub open spec fn item_marker(ordered: bool, start: u32, index: int, depth: int, flavor: Flavor) -> Seq<char> {
    match flavor {
        Flavor::Textile => repeat_spec(
            if ordered {
                '#'
            } else {
                '*'
            },
            deeper_level(depth) as nat,
        ) + (if ordered && index == 0 && start != 1 {
            decimal(start as nat)
        } else {
            seq![]
        }) + seq![' '],
        _ => repeat_seq("  "@, depth as nat) + (if ordered {
            decimal(crate::formats::markdown::emitter::item_number(start, index) as nat) + ". "@
        } else {
            "- "@
        }),
    }
}

/// A list written after `prev` at `depth`.
pub open spec fn list_text(
    prev: Seq<char>,
    items: Seq<ListItem>,
    ordered: bool,
    start: u32,
    depth: int,
    flavor: Flavor,
) -> Seq<char>
    decreases items, 1nat,
{
    if items.len() == 0 {
        prev
    } else {
        let before = list_text(prev, items.drop_last(), ordered, start, depth, flavor);
        item_text(
            before + item_marker(ordered, start, items.len() - 1, depth, flavor),
            items.last().content@,
            deeper_level(depth),
            flavor,
        )
    }
}

/// A list item's blocks written after `prev`: the first block's text when
/// it is a paragraph, then the other blocks, nested lists one level deeper.
pub open spec fn item_text(prev: Seq<char>, blocks: Seq<Block>, child_depth: int, flavor: Flavor) -> Seq<
    char,
>
    decreases blocks, 0nat,
{
    if blocks.len() == 0 {
        prev.push('\n')
    } else if blocks.len() == 1 {
        (prev + match blocks[0] {
            Block::Paragraph { content } => inlines_text(content@, flavor),
            _ => seq![],
        }).push('\n')
    } else {
        item_block_text(
            item_text(prev, blocks.drop_last(), child_depth, flavor),
            blocks.last(),
            child_depth,
            flavor,
        )
    }
}

pub open spec fn item_block_text(prev: Seq<char>, b: Block, child_depth: int, flavor: Flavor) -> Seq<char>
    decreases b, 3nat,
{
    match b {
        Block::UnorderedList { items } => list_text(prev, items@, false, 1, child_depth, flavor),
        Block::OrderedList { start, items } => list_text(prev, items@, true, start, child_depth, flavor),
        _ => block_text(prev, b, flavor),
    }
}

// ---------------------------------------------------------------------------
// Writing blocks
// ---------------------------------------------------------------------------

fn emit_blocks(out: &mut Vec<char>, blocks: &Vec<Block>, flavor: Flavor)
    ensures
        final(out)@ == blocks_text(old(out)@, blocks@, flavor),
    decreases blocks, 3nat,
{
    let ghost start = out@;
    let mut i: usize = 0;
    assert(blocks@.subrange(0, 0) =~= seq![]);
    while i < blocks.len()
        invariant
            i <= blocks.len(),
            out@ == blocks_text(start, blocks@.subrange(0, i as int), flavor),
        decreases blocks.len() - i,
    {
        assert(decreases_to!(blocks => blocks@[i as int]));
        emit_block(out, &blocks[i], flavor);
        proof {
            assert(blocks@.subrange(0, i + 1).drop_last() =~= blocks@.subrange(0, i as int));
        }
        i += 1;
    }
    assert(blocks@.subrange(0, blocks@.len() as int) =~= blocks@);
}

fn emit_block(out: &mut Vec<char>, block: &Block, flavor: Flavor)
    ensures
        final(out)@ == block_text(old(out)@, *block, flavor),
    decreases block, 2nat,
{
    ensure_blank_line(out);
    let ghost start = out@;
    match block {
        Block::Heading { level, content } => {
            match flavor {
                Flavor::Djot => push_all(out, &repeat('#', *level as usize)),
                Flavor::Org => push_all(out, &repeat('*', *level as usize)),
                Flavor::Textile => {
                    out.push('h');
                    push_decimal(out, *level as u64);
                    out.push('.');
                },
            }
            assert(out@ =~= start + heading_mark(*level, flavor));
            out.push(' ');
            emit_inlines(out, content, flavor);
            out.push('\n');
        },
        Block::Paragraph { content } => {
            if content.len() > 0 {
                emit_inlines(out, content, flavor);
                out.push('\n');
            }
        },
        Block::CodeBlock { language, content } => emit_code(out, language, content, flavor),
        Block::BlockQuote { children } => emit_quote(out, children, flavor),
        Block::UnorderedList { items } => emit_list(out, items, false, 1, 0, flavor),
        Block::OrderedList { start, items } => emit_list(out, items, true, *start, 0, flavor),
        Block::DescriptionList { items } => emit_descriptions(out, items, flavor),
        Block::Table { headers, alignments, rows } => emit_table(out, headers, alignments, rows, flavor),
        Block::HorizontalRule => match flavor {
            Flavor::Djot => push_str(out, "----\n"),
            Flavor::Org => push_str(out, "-----\n"),
            Flavor::Textile => push_str(out, "<hr />\n"),
        },
        Block::RawBlock { format, content } => emit_raw(out, format, content, flavor),
    }
    assert(out@ =~= block_text(old(out)@, *block, flavor));
}

fn emit_quote(out: &mut Vec<char>, children: &Vec<Block>, flavor: Flavor)
    ensures
        final(out)@ == old(out)@ + quote_text(
            trim_end_spec(finished(blocks_text(seq![], children@, flavor))),
            flavor,
        ),
    decreases children, 4nat,
{
    let mut inner: Vec<char> = Vec::new();
    emit_blocks(&mut inner, children, flavor);
    let inner = trim_end(&chars_of_string(&finish_output(&inner)));
    match flavor {
        Flavor::Djot => {
            push_quote_lines(out, &inner);
        },
        Flavor::Org => {
            push_str(out, "#+begin_quote\n");
            push_all(out, &inner);
            push_str(out, "\n#+end_quote\n");
        },
        Flavor::Textile => {
            push_str(out, "bq..\n");
            push_all(out, &inner);
            push_str(out, "\n\np.\n");
        },
    }
}

fn emit_raw(out: &mut Vec<char>, format: &Option<String>, content: &String, flavor: Flavor)
    ensures
        final(out)@ == old(out)@ + raw_text(*format, content@, flavor),
{
    let ghost start = out@;
    match flavor {
        Flavor::Djot => push_str(out, "``` ="),
        Flavor::Org => push_str(out, "#+begin_export "),
        Flavor::Textile => push_str(out, "pre..\n"),
    }
    let ghost opened = out@;
    if flavor != Flavor::Textile {
        match format {
            Some(f) => push_string(out, f),
            None => push_str(out, "text"),
        }
        out.push('\n');
    }
    assert(out@ =~= opened + (if flavor != Flavor::Textile {
        (match *format {
            Some(f) => f@,
            None => "text"@,
        }) + seq!['\n']
    } else {
        seq![]
    }));
    push_string(out, content);
    match flavor {
        Flavor::Djot => push_str(out, "\n```\n"),
        Flavor::Org => push_str(out, "\n#+end_export\n"),
        Flavor::Textile => push_str(out, "\n\np.\n"),
    }
    assert(out@ =~= start + raw_text(*format, content@, flavor));
}

/// Writes each line of `text` behind `> `.
fn push_quote_lines(out: &mut Vec<char>, text: &Vec<char>)
    ensures
        final(out)@ == old(out)@ + quote_lines(lines_spec(text@)),
{
    let ghost start = out@;
    let ls = lines(text);
    let ghost views_ls = views(ls@);
    let mut k: usize = 0;
    while k < ls.len()
        invariant
            k <= ls.len(),
            views_ls == views(ls@),
            views_ls.len() == ls@.len(),
            out@ == start + quote_lines(views_ls.subrange(0, k as int)),
        decreases ls.len() - k,
    {
        push_str(out, "> ");
        push_all(out, &ls[k]);
        out.push('\n');
        proof {
            assert(views_ls.subrange(0, k + 1).drop_last() =~= views_ls.subrange(0, k as int));
            assert(views_ls[k as int] == ls@[k as int]@);
            assert(out@ =~= start + quote_lines(views_ls.subrange(0, k + 1)));
        }
        k += 1;
    }
    assert(views_ls.subrange(0, views_ls.len() as int) =~= views_ls);
}

fn emit_code(out: &mut Vec<char>, language: &Option<String>, content: &String, flavor: Flavor)
    ensures
        final(out)@ == old(out)@ + code_text(*language, content@, flavor),
{
    let ghost start = out@;
    match flavor {
        Flavor::Djot => {
            push_str(out, "```");
            if let Some(l) = language {
                out.push(' ');
                push_string(out, l);
            }
            out.push('\n');
            push_string(out, content);
            push_str(out, "\n```\n");
        },
        Flavor::Org => {
            push_str(out, "#+begin_src");
            if let Some(l) = language {
                out.push(' ');
                push_string(out, l);
            }
            out.push('\n');
            push_string(out, content);
            push_str(out, "\n#+end_src\n");
        },
        Flavor::Textile => {
            if let Some(l) = language {
                push_str(out, "bc(");
                push_string(out, l);
                push_str(out, ")..\n");
            } else {
                push_str(out, "bc..\n");
            }
            push_string(out, content);
            push_str(out, "\n\np.\n");
        },
    }
    assert(out@ =~= start + code_text(*language, content@, flavor));
}

fn emit_list(out: &mut Vec<char>, items: &Vec<ListItem>, ordered: bool, start: u32, depth: usize, flavor: Flavor)
    ensures
        final(out)@ == list_text(old(out)@, items@, ordered, start, depth as int, flavor),
    decreases items, 1nat,
{
    let ghost begin = out@;
    let next_depth = if depth < usize::MAX {
        depth + 1
    } else {
        depth
    };
    let mut index: usize = 0;
    assert(items@.subrange(0, 0) =~= seq![]);
    while index < items.len()
        invariant
            index <= items.len(),
            next_depth == deeper_level(depth as int),
            out@ == list_text(begin, items@.subrange(0, index as int), ordered, start, depth as int, flavor),
        decreases items.len() - index,
    {
        assert(decreases_to!(items => items@[index as int]));
        let item = &items[index];
        let ghost before = out@;
        match flavor {
            Flavor::Textile => {
                push_all(
                    out,
                    &repeat(
                        if ordered {
                            '#'
                        } else {
                            '*'
                        },
                        next_depth,
                    ),
                );
                if ordered && index == 0 && start != 1 {
                    push_decimal(out, start as u64);
                }
                out.push(' ');
            },
            _ => {
                push_all(out, &repeat_lit("  ", depth));
                if ordered {
                    #[verifier::truncate]
                    let offset = index as u32;
                    let num = start.wrapping_add(offset);
                    assert(num == crate::formats::markdown::emitter::item_number(start, index as int));
                    push_decimal(out, num as u64);
                    push_str(out, ". ");
                } else {
                    push_str(out, "- ");
                }
            },
        }
        assert(out@ =~= before + item_marker(ordered, start, index as int, depth as int, flavor));
        emit_item(out, item, next_depth, flavor);
        proof {
            assert(items@.subrange(0, index + 1).drop_last() =~= items@.subrange(0, index as int));
        }
        index += 1;
    }
    assert(items@.subrange(0, items@.len() as int) =~= items@);
}

fn emit_item(out: &mut Vec<char>, item: &ListItem, child_depth: usize, flavor: Flavor)
    ensures
        final(out)@ == item_text(old(out)@, item.content@, child_depth as int, flavor),
    decreases item, 0nat,
{
    let ghost begin = out@;
    if item.content.len() == 0 {
        out.push('\n');
        return;
    }
    if let Block::Paragraph { content } = &item.content[0] {
        assert(decreases_to!(item => item.content));
        assert(decreases_to!(item.content => item.content@[0]));
        emit_inlines(out, content, flavor);
    }
    out.push('\n');
    assert(item.content@.subrange(0, 1).len() == 1);
    assert(item.content@.subrange(0, 1)[0] == item.content@[0]);
    let mut j: usize = 1;
    while j < item.content.len()
        invariant
            1 <= j <= item.content@.len(),
            out@ == item_text(begin, item.content@.subrange(0, j as int), child_depth as int, flavor),
        decreases item.content.len() - j,
    {
        let child = &item.content[j];
        let ghost before = out@;
        assert(decreases_to!(item => item.content));
        assert(decreases_to!(item.content => item.content@[j as int]));
        match child {
            Block::UnorderedList { items } => emit_list(out, items, false, 1, child_depth, flavor),
            Block::OrderedList { start, items } => emit_list(out, items, true, *start, child_depth, flavor),
            _ => emit_block(out, child, flavor),
        }
        proof {
            let pre = item.content@.subrange(0, j + 1);
            assert(pre.drop_last() =~= item.content@.subrange(0, j as int));
            assert(pre.last() == item.content@[j as int]);
            assert(pre.len() > 1);
            assert(out@ == item_block_text(before, item.content@[j as int], child_depth as int, flavor));
        }
        j += 1;
    }
    proof {
        assert(item.content@.subrange(0, item.content@.len() as int) =~= item.content@);
    }
}

fn emit_descriptions(out: &mut Vec<char>, items: &Vec<DescriptionItem>, flavor: Flavor)
    ensures
        final(out)@ == old(out)@ + descriptions_text(items@, flavor),
{
    let ghost begin = out@;
    let mut k: usize = 0;
    while k < items.len()
        invariant
            k <= items.len(),
            out@ == begin + descriptions_text(items@.subrange(0, k as int), flavor),
        decreases items.len() - k,
    {
        emit_description(out, &items[k], flavor);
        proof {
            assert(items@.subrange(0, k + 1).drop_last() =~= items@.subrange(0, k as int));
            assert(out@ =~= begin + descriptions_text(items@.subrange(0, k + 1), flavor));
        }
        k += 1;
    }
    assert(items@.subrange(0, items@.len() as int) =~= items@);
}

fn emit_description(out: &mut Vec<char>, item: &DescriptionItem, flavor: Flavor)
    ensures
        final(out)@ == old(out)@ + description_text(*item, flavor),
{
    let ghost before = out@;
    match flavor {
        Flavor::Djot => {
            push_str(out, ": ");
            emit_inlines(out, &item.term, flavor);
            push_str(out, "\n\n  ");
        },
        Flavor::Org => {
            push_str(out, "- ");
            emit_inlines(out, &item.term, flavor);
            push_str(out, " :: ");
        },
        Flavor::Textile => {
            push_str(out, "- ");
            emit_inlines(out, &item.term, flavor);
            push_str(out, " := ");
        },
    }
    let ghost termed = out@;
    if item.definitions.len() > 0 {
        let def = &item.definitions[0];
        if def.len() > 0 {
            if let Block::Paragraph { content } = &def[0] {
                emit_inlines(out, content, flavor);
            }
        }
    }
    assert(out@ =~= termed + first_definition(item.definitions@, flavor));
    let ghost defined = out@;
    if flavor == Flavor::Textile {
        push_str(out, " =-");
    }
    assert(out@ =~= defined + (if flavor == Flavor::Textile {
        " =-"@
    } else {
        seq![]
    }));
    out.push('\n');
    assert(out@ =~= before + description_text(*item, flavor));
}

fn emit_table(
    out: &mut Vec<char>,
    headers: &Vec<TableCell>,
    alignments: &Vec<ColumnAlignment>,
    rows: &Vec<Vec<TableCell>>,
    flavor: Flavor,
)
    ensures
        final(out)@ == old(out)@ + table_text(headers@, alignments@, rows@, flavor),
{
    let ghost begin = out@;
    out.push('|');
    let ghost heads = out@;
    let mut i: usize = 0;
    while i < headers.len()
        invariant
            i <= headers.len(),
            out@ == heads + header_cells(headers@.subrange(0, i as int), alignments@, flavor),
        decreases headers.len() - i,
    {
        let a = if i < alignments.len() {
            alignments[i]
        } else {
            ColumnAlignment::Default
        };
        assert(a == column_alignment(alignments@, i as int));
        emit_header_cell(out, &headers[i], a, flavor);
        proof {
            assert(headers@.subrange(0, i + 1).drop_last() =~= headers@.subrange(0, i as int));
            assert(headers@.subrange(0, i + 1).last() == headers@[i as int]);
        }
        i += 1;
    }
    assert(headers@.subrange(0, headers@.len() as int) =~= headers@);
    out.push('\n');
    let ghost after_head = out@;
    if flavor != Flavor::Textile {
        out.push('|');
        let ghost marks = out@;
        let mut i: usize = 0;
        while i < headers.len()
            invariant
                i <= headers.len(),
                out@ == marks + delimiter_cells(alignments@, i as int),
            decreases headers.len() - i,
        {
            let a = if i < alignments.len() {
                alignments[i]
            } else {
                ColumnAlignment::Default
            };
            assert(a == column_alignment(alignments@, i as int));
            out.push(' ');
            match a {
                ColumnAlignment::Left => push_str(out, ":---"),
                ColumnAlignment::Center => push_str(out, ":---:"),
                ColumnAlignment::Right => push_str(out, "---:"),
                ColumnAlignment::Default => push_str(out, "---"),
            }
            push_str(out, " |");
            assert(out@ =~= marks + delimiter_cells(alignments@, i + 1));
            i += 1;
        }
        out.push('\n');
    }
    assert(out@ =~= after_head + (if flavor != Flavor::Textile {
        seq!['|'] + delimiter_cells(alignments@, headers@.len() as int) + seq!['\n']
    } else {
        seq![]
    }));
    let ghost body = out@;
    let mut r: usize = 0;
    while r < rows.len()
        invariant
            r <= rows.len(),
            out@ == body + body_rows(rows@.subrange(0, r as int), flavor),
        decreases rows.len() - r,
    {
        out.push('|');
        let row = &rows[r];
        let ghost row_start = out@;
        let mut c: usize = 0;
        while c < row.len()
            invariant
                c <= row.len(),
                out@ == row_start + body_cells(row@.subrange(0, c as int), flavor),
            decreases row.len() - c,
        {
            out.push(' ');
            emit_cell(out, &row[c], flavor);
            push_str(out, " |");
            proof {
                assert(row@.subrange(0, c + 1).drop_last() =~= row@.subrange(0, c as int));
                assert(out@ =~= row_start + body_cells(row@.subrange(0, c + 1), flavor));
            }
            c += 1;
        }
        assert(row@.subrange(0, row@.len() as int) =~= row@);
        out.push('\n');
        proof {
            assert(rows@.subrange(0, r + 1).drop_last() =~= rows@.subrange(0, r as int));
            assert(out@ =~= body + body_rows(rows@.subrange(0, r + 1), flavor));
        }
        r += 1;
    }
    assert(rows@.subrange(0, rows@.len() as int) =~= rows@);
    assert(out@ =~= begin + table_text(headers@, alignments@, rows@, flavor));
}

fn emit_header_cell(out: &mut Vec<char>, cell: &TableCell, a: ColumnAlignment, flavor: Flavor)
    ensures
        final(out)@ == old(out)@ + header_cell(*cell, a, flavor),
{
    let ghost before = out@;
    out.push(' ');
    let ghost spaced = out@;
    if flavor == Flavor::Textile {
        push_str(out, "_. ");
        match a {
            ColumnAlignment::Left => push_str(out, "<. "),
            ColumnAlignment::Center => push_str(out, "=. "),
            ColumnAlignment::Right => push_str(out, ">. "),
            ColumnAlignment::Default => {},
        }
    }
    assert(out@ =~= spaced + (if flavor == Flavor::Textile {
        "_. "@ + match a {
            ColumnAlignment::Left => "<. "@,
            ColumnAlignment::Center => "=. "@,
            ColumnAlignment::Right => ">. "@,
            ColumnAlignment::Default => seq![],
        }
    } else {
        seq![]
    }));
    emit_cell(out, cell, flavor);
    push_str(out, " |");
    assert(out@ =~= before + header_cell(*cell, a, flavor));
}

fn emit_cell(out: &mut Vec<char>, cell: &TableCell, flavor: Flavor)
    ensures
        final(out)@ == old(out)@ + cell_text(*cell, flavor),
{
    let ghost start = out@;
    if flavor == Flavor::Textile {
        if cell.colspan > 1 {
            out.push('\\');
            push_decimal(out, cell.colspan as u64);
            push_str(out, ". ");
        }
        let ghost a = out@;
        assert(a =~= start + (if cell.colspan > 1 {
            seq!['\\'] + decimal(cell.colspan as nat) + ". "@
        } else {
            seq![]
        }));
        if cell.rowspan > 1 {
            out.push('/');
            push_decimal(out, cell.rowspan as u64);
            push_str(out, ". ");
        }
        assert(out@ =~= a + (if cell.rowspan > 1 {
            seq!['/'] + decimal(cell.rowspan as nat) + ". "@
        } else {
            seq![]
        }));
    }
    emit_inlines(out, &cell.content, flavor);
    assert(out@ =~= start + cell_text(*cell, flavor));
}

/// The italic marker of a flavor.
pub open spec fn italic_mark(flavor: Flavor) -> Seq<char> {
    if flavor == Flavor::Org {
        "/"@
    } else {
        "_"@
    }
}

/// The inline code delimiter of a flavor.
pub open spec fn code_mark(flavor: Flavor) -> Seq<char> {
    match flavor {
        Flavor::Djot => "`"@,
        Flavor::Org => "~"@,
        Flavor::Textile => "@"@,
    }
}

/// How an image is written, its alternative text already written as `alt`
/// (`has_alt` when it has any inline node).
pub open spec fn image_text(
    url: Seq<char>,
    alt: Seq<char>,
    has_alt: bool,
    title: Option<String>,
    flavor: Flavor,
) -> Seq<char> {
    match flavor {
        Flavor::Djot => "!["@ + alt + "]("@ + url + seq![')'],
        Flavor::Org => "[["@ + url + (if has_alt {
            "]["@ + alt
        } else {
            seq![]
        }) + "]]"@,
        Flavor::Textile => seq!['!'] + url + (match title {
            Some(t) => seq!['('] + t@ + seq![')'],
            None => seq![],
        }) + seq!['!'],
    }
}

/// How an inline node is written in a flavor.
pub open spec fn inline_text(x: Inline, flavor: Flavor) -> Seq<char>
    decreases x,
{
    match x {
        Inline::Text(t) => escape_spec(t@, flavor),
        Inline::Bold(c) => "*"@ + inlines_text(c@, flavor) + "*"@,
        Inline::Italic(c) => italic_mark(flavor) + inlines_text(c@, flavor) + italic_mark(flavor),
        Inline::BoldItalic(c) => seq!['*'] + (italic_mark(flavor) + inlines_text(c@, flavor)
            + italic_mark(flavor)) + seq!['*'],
        Inline::Strikethrough(c) => match flavor {
            Flavor::Djot => "{-"@ + inlines_text(c@, flavor) + "-}"@,
            Flavor::Org => "+"@ + inlines_text(c@, flavor) + "+"@,
            Flavor::Textile => "-"@ + inlines_text(c@, flavor) + "-"@,
        },
        Inline::Superscript(c) => match flavor {
            Flavor::Org => "^{"@ + inlines_text(c@, flavor) + "}"@,
            _ => "^"@ + inlines_text(c@, flavor) + "^"@,
        },
        Inline::Subscript(c) => match flavor {
            Flavor::Org => "_{"@ + inlines_text(c@, flavor) + "}"@,
            _ => "~"@ + inlines_text(c@, flavor) + "~"@,
        },
        Inline::InlineCode(code) => code_mark(flavor) + code@ + code_mark(flavor),
        Inline::Link { url, text, .. } => match flavor {
            Flavor::Djot => seq!['['] + inlines_text(text@, flavor) + "]("@ + url@ + seq![')'],
            Flavor::Org => "[["@ + url@ + "]["@ + inlines_text(text@, flavor) + "]]"@,
            Flavor::Textile => seq!['"'] + inlines_text(text@, flavor) + "\":"@ + url@,
        },
        Inline::Image { url, alt, title, link } => {
            let image = image_text(url@, inlines_text(alt@, flavor), alt@.len() > 0, title, flavor);
            match link {
                Some(l) => match flavor {
                    Flavor::Djot => seq!['['] + image + "]("@ + l@ + seq![')'],
                    Flavor::Org => "[["@ + l@ + "]["@ + image + "]]"@,
                    Flavor::Textile => image + seq![':'] + l@,
                },
                None => image,
            }
        },
        Inline::HardLineBreak => match flavor {
            Flavor::Djot => "\\\n"@,
            Flavor::Org => "\\\\\n"@,
            Flavor::Textile => "<br />\n"@,
        },
        Inline::SoftLineBreak => seq!['\n'],
        Inline::RawInline { format, content } => match flavor {
            Flavor::Djot => seq!['`'] + content@ + "`{="@ + (match format {
                Some(f) => f@,
                None => "text"@,
            }) + seq!['}'],
            _ => content@,
        },
    }
}

/// How inline content is written in a flavor.
pub open spec fn inlines_text(s: Seq<Inline>, flavor: Flavor) -> Seq<char>
    decreases s,
{
    if s.len() == 0 {
        seq![]
    } else {
        inlines_text(s.drop_last(), flavor) + inline_text(s.last(), flavor)
    }
}

fn emit_wrapped(out: &mut Vec<char>, open: &str, content: &Vec<Inline>, close: &str, flavor: Flavor)
    ensures
        final(out)@ == old(out)@ + (open@ + inlines_text(content@, flavor) + close@),
    decreases content, 1nat,
{
    let ghost start = out@;
    push_str(out, open);
    emit_inlines(out, content, flavor);
    push_str(out, close);
    assert(out@ =~= start + (open@ + inlines_text(content@, flavor) + close@));
}

fn emit_inlines(out: &mut Vec<char>, inlines: &Vec<Inline>, flavor: Flavor)
    ensures
        final(out)@ == old(out)@ + inlines_text(inlines@, flavor),
    decreases inlines, 0nat,
{
    let ghost start = out@;
    let mut i: usize = 0;
    while i < inlines.len()
        invariant
            i <= inlines.len(),
            out@ == start + inlines_text(inlines@.subrange(0, i as int), flavor),
        decreases inlines.len() - i,
    {
        assert(decreases_to!(inlines => inlines@[i as int]));
        emit_inline(out, &inlines[i], flavor);
        proof {
            assert(inlines@.subrange(0, i + 1).drop_last() =~= inlines@.subrange(0, i as int));
            assert(out@ =~= start + inlines_text(inlines@.subrange(0, i + 1), flavor));
        }
        i += 1;
    }
    assert(inlines@.subrange(0, inlines@.len() as int) =~= inlines@);
}

fn emit_inline(out: &mut Vec<char>, inline: &Inline, flavor: Flavor)
    ensures
        final(out)@ == old(out)@ + inline_text(*inline, flavor),
    decreases inline, 2nat,
{
    let ghost start = out@;
    let italic = if flavor == Flavor::Org {
        "/"
    } else {
        "_"
    };
    assert(italic@ == italic_mark(flavor));
    match inline {
        Inline::Text(t) => push_all(out, &escape_text(&chars_of_string(t), flavor)),
        Inline::Bold(c) => emit_wrapped(out, "*", c, "*", flavor),
        Inline::Italic(c) => emit_wrapped(out, italic, c, italic, flavor),
        Inline::BoldItalic(c) => {
            out.push('*');
            emit_wrapped(out, italic, c, italic, flavor);
            out.push('*');
        },
        Inline::Strikethrough(c) => match flavor {
            Flavor::Djot => emit_wrapped(out, "{-", c, "-}", flavor),
            Flavor::Org => emit_wrapped(out, "+", c, "+", flavor),
            Flavor::Textile => emit_wrapped(out, "-", c, "-", flavor),
        },
        Inline::Superscript(c) => match flavor {
            Flavor::Org => emit_wrapped(out, "^{", c, "}", flavor),
            _ => emit_wrapped(out, "^", c, "^", flavor),
        },
        Inline::Subscript(c) => match flavor {
            Flavor::Org => emit_wrapped(out, "_{", c, "}", flavor),
            _ => emit_wrapped(out, "~", c, "~", flavor),
        },
        Inline::InlineCode(code) => {
            let d = match flavor {
                Flavor::Djot => "`",
                Flavor::Org => "~",
                Flavor::Textile => "@",
            };
            assert(d@ == code_mark(flavor));
            push_str(out, d);
            push_string(out, code);
            push_str(out, d);
        },
        Inline::Link { url, text, .. } => match flavor {
            Flavor::Djot => {
                out.push('[');
                emit_inlines(out, text, flavor);
                push_str(out, "](");
                push_string(out, url);
                out.push(')');
            },
            Flavor::Org => {
                push_str(out, "[[");
                push_string(out, url);
                push_str(out, "][");
                emit_inlines(out, text, flavor);
                push_str(out, "]]");
            },
            Flavor::Textile => {
                out.push('"');
                emit_inlines(out, text, flavor);
                push_str(out, "\":");
                push_string(out, url);
            },
        },
        Inline::Image { url, alt, title, link } => {
            match link {
                Some(l) => match flavor {
                    Flavor::Djot => {
                        out.push('[');
                        emit_image(out, url, alt, title, flavor);
                        push_str(out, "](");
                        push_string(out, l);
                        out.push(')');
                    },
                    Flavor::Org => {
                        push_str(out, "[[");
                        push_string(out, l);
                        push_str(out, "][");
                        emit_image(out, url, alt, title, flavor);
                        push_str(out, "]]");
                    },
                    Flavor::Textile => {
                        emit_image(out, url, alt, title, flavor);
                        out.push(':');
                        push_string(out, l);
                    },
                },
                None => emit_image(out, url, alt, title, flavor),
            }
        },
        Inline::HardLineBreak => match flavor {
            Flavor::Djot => push_str(out, "\\\n"),
            Flavor::Org => push_str(out, "\\\\\n"),
            Flavor::Textile => push_str(out, "<br />\n"),
        },
        Inline::SoftLineBreak => out.push('\n'),
        Inline::RawInline { format, content } => match flavor {
            Flavor::Djot => {
                out.push('`');
                push_string(out, content);
                push_str(out, "`{=");
                match format {
                    Some(f) => push_string(out, f),
                    None => push_str(out, "text"),
                }
                out.push('}');
            },
            _ => push_string(out, content),
        },
    }
    assert(out@ =~= start + inline_text(*inline, flavor));
}

fn emit_image(out: &mut Vec<char>, url: &String, alt: &Vec<Inline>, title: &Option<String>, flavor: Flavor)
    ensures
        final(out)@ == old(out)@ + image_text(
            url@,
            inlines_text(alt@, flavor),
            alt@.len() > 0,
            *title,
            flavor,
        ),
    decreases alt, 1nat,
{
    let ghost start = out@;
    match flavor {
        Flavor::Djot => {
            push_str(out, "![");
            emit_inlines(out, alt, flavor);
            push_str(out, "](");
            push_string(out, url);
            out.push(')');
        },
        Flavor::Org => {
            push_str(out, "[[");
            push_string(out, url);
            let ghost mid = out@;
            if alt.len() > 0 {
                push_str(out, "][");
                emit_inlines(out, alt, flavor);
            }
            assert(out@ =~= mid + (if alt@.len() > 0 {
                "]["@ + inlines_text(alt@, flavor)
            } else {
                seq![]
            }));
            push_str(out, "]]");
        },
        Flavor::Textile => {
            out.push('!');
            push_string(out, url);
            let ghost mid = out@;
            if let Some(t) = title {
                out.push('(');
                push_string(out, t);
                out.push(')');
            }
            assert(out@ =~= mid + (match *title {
                Some(t) => seq!['('] + t@ + seq![')'],
                None => seq![],
            }));
            out.push('!');
        },
    }
    assert(out@ =~= start + image_text(url@, inlines_text(alt@, flavor), alt@.len() > 0, *title, flavor));
}

} // verus!
