//! LaTeX reader.
use vstd::prelude::*;

use crate::ast::{InlineModel, inline_model, inlines_model, Block, ColumnAlignment, DescriptionItem, Document, Inline, ListItem, TableCell};
use crate::error::ParseError;
use crate::format::Parser;
use crate::formats::model::{emphasis_model, lemma_emphasis_model, merge_push, flush_model, lemma_push_merged_model, lemma_inlines_model_push};
use crate::formats::common::{plain_char, plain_line, one_plain_line, line_body, plain_paragraph, reads_as_plain_text, reads_as_plain_paragraph, lemma_prefix_head, lemma_plain_line_text, joins_text, first_match_from, lemma_first_match_from, emphasis_of, error_is, text_of_inline, LineCursor, no_adjacent_text, push_merged};
use crate::std_calls::{alphabetic, is_alphabetic};
use crate::text::{lines_spec, split_spec, trim_spec, parse_unsigned_spec, trim_start_spec, occurs_at, all_ws, views, ascii_lower_spec, is_ws_spec, trim_end_char_spec, chars_of, copy, ends_with_lit, eq, eq_ignore_case_lit, eq_lit, find, find_char, find_char_from, first_is, is_blank, is_ws, join, lemma_trim_start_len, lines, parse_unsigned, push_all, push_str, push_string, replace_lit, skip, split_char, split_once_lit, starts_with_lit, string_of, strip_prefix_lit, substring, trim, trim_end_char, trim_start};

verus! {

pub struct LatexParser;

impl Parser for LatexParser {
    fn parse(&self, input: &str) -> (r: Result<Document, ParseError>)
        ensures
            r matches Err(e) ==> error_is(e, stall_detail()),
            input@.len() == 0 ==> (r matches Ok(d) && d.children@.len() == 0),
            one_plain_line(input@) ==> (r matches Ok(d) && plain_paragraph(d.children@, line_body(input@))),
            forall|k: u8, l: Seq<char>| #[trigger] latex_heading_text(input@, k, l) ==> (r matches Ok(d) && heading_of_level(d.children@, k)),
    {
        let text = chars_of(input);
        match parse_latex(&text) {
            Ok(children) => Ok(Document { children }),
            Err(e) => Err(e),
        }
    }
}

/// The detail of the error reported where reading makes no progress.
pub open spec fn stall_detail() -> Seq<char> {
    "LaTeX input makes no progress at a block"@
}

fn stalled() -> (e: ParseError)
    ensures
        error_is(e, stall_detail()),
{
    ParseError::invalid("LaTeX input makes no progress at a block")
}

/// Parses a whole LaTeX text into blocks.
pub(crate) fn parse_latex(input: &Vec<char>) -> (r: Result<Vec<Block>, ParseError>)
    ensures
        r matches Err(e) ==> error_is(e, stall_detail()),
        input@.len() == 0 ==> (r matches Ok(b) && b@.len() == 0),
        one_plain_line(input@) ==> reads_as_plain_paragraph(r, line_body(input@)),
        forall|k: u8, l: Seq<char>| #[trigger] latex_heading_text(input@, k, l) ==> (r matches Ok(b) && heading_of_level(b@, k)),
    decreases input@.len(), 3nat,
{
    let mut cur = LineCursor::new(input);
    proof {
        if exists|k: u8, l: Seq<char>| #[trigger] latex_heading_text(input@, k, l) {
            let (k, l) = choose|k: u8, l: Seq<char>| #[trigger] latex_heading_text(input@, k, l);
            let h = line_body(input@);
            if latex_heading_line(input@, k, l) {
                lemma_latex_heading_line(input@, k, l);
                assert(input@.last() != '\n');
                assert(h == input@);
            } else {
                assert(input@ =~= h.push('\n'));
            }
            lemma_latex_heading_line(h, k, l);
            assert(views(cur.lines@) == seq![h]);
            assert(cur.lines@.len() == 1);
            assert(views(cur.lines@)[0] == cur.lines@[0]@);
            assert(cur.lines@[0]@ == h);
            assert(latex_heading_line(cur.lines@[0]@, k, l));
            assert forall|k2: u8, l2: Seq<char>| #[trigger] latex_heading_text(input@, k2, l2) implies (heading_title_at(h)->0).0 == k2 by {
                if latex_heading_line(input@, k2, l2) {
                    lemma_latex_heading_line(input@, k2, l2);
                    assert(input@.last() != '\n');
                }
                lemma_latex_heading_line(h, k2, l2);
            }
        }
        if one_plain_line(input@) {
            let l = line_body(input@);
            if plain_line(input@) {
                assert(l == input@);
            } else {
                assert(input@ =~= l.push('\n'));
            }
            lemma_plain_line(l);
            assert(views(cur.lines@) == seq![l]);
            assert(cur.lines@.len() == 1);
            assert(views(cur.lines@)[0] == cur.lines@[0]@);
        }
    }
    assert(crate::text::views(cur.lines@).len() == cur.lines@.len());
    assert(input@.len() == 0 ==> crate::text::lines_spec(input@).len() == 0);
    parse_blocks(&mut cur, input.len())
}

/// What a plain line is not in LaTeX: it holds no command, comment or
/// inline markup, so it starts no block.
proof fn lemma_plain_line(l: Seq<char>)
    requires
        plain_line(l),
    ensures
        trim_spec(l) == l,
        forall|j: int| 0 <= j < l.len() ==> #[trigger] l[j] != '%' && l[j] != '\\',
        command_at(l, 0) is None,
        !ignored_line(l),
        heading_title_at(l) is None,
        environment_of(l, true) is None,
        plain_latex(l),
        lines_spec(l) == seq![l],
        lines_spec(l.push('\n')) == seq![l],
{
    lemma_plain_line_text(l);
    assert forall|j: int| 0 <= j < l.len() implies #[trigger] l[j] != '%' && l[j] != '\\' by {
        assert(plain_char(l[j]));
    }
    assert forall|i: int| 0 <= i < l.len() implies !latex_markup_char(#[trigger] l[i]) by {
        assert(plain_char(l[i]));
    }
}

/// Parses a text that is part of the text being read; `budget` is the length
/// of the enclosing text, which a nested text is always shorter than.
fn parse_nested(text: &Vec<char>, budget: usize) -> (r: Result<Vec<Block>, ParseError>)
    ensures
        r matches Err(e) ==> error_is(e, stall_detail()),
    decreases budget, 0nat,
{
    if text.len() >= budget {
        return Err(stalled());
    }
    let mut cur = LineCursor::new(text);
    parse_blocks(&mut cur, text.len())
}

// ---------------------------------------------------------------------------
// Lexical helpers
// ---------------------------------------------------------------------------

/// The number of backslashes right before index `i`.
pub open spec fn backslashes_before(s: Seq<char>, i: int) -> nat
    decreases i,
{
    if i <= 0 || i > s.len() || s[i - 1] != '\\' {
        0
    } else {
        1 + backslashes_before(s, i - 1)
    }
}

/// Whether the character at `i` is escaped: an odd number of backslashes
/// precede it.
pub(crate) fn is_escaped(s: &Vec<char>, i: usize) -> (b: bool)
    ensures
        b == (backslashes_before(s@, i as int) % 2 == 1),
{
    if i > s.len() {
        return false;
    }
    let mut k = i;
    let mut n: usize = 0;
    while k > 0 && s[k - 1] == '\\'
        invariant
            k <= i <= s.len(),
            n + k == i,
            backslashes_before(s@, i as int) == n + backslashes_before(s@, k as int),
        decreases k,
    {
        k -= 1;
        n += 1;
    }
    n % 2 == 1
}

/// The command that starts at `start` (a backslash): a run of letters (and
/// `@`) with an optional `*`, or one other character; and the index after it.
/// A character of a command's name: a letter (an ASCII letter, or a
/// character beyond ASCII with the Unicode `Alphabetic` property) or `@`.
pub open spec fn name_char(c: char) -> bool {
    if (c as u32) < 128 {
        ('a' <= c && c <= 'z') || ('A' <= c && c <= 'Z') || c == '@'
    } else {
        alphabetic(c) || c == '@'
    }
}

/// Whether `c` can stand in a command's name.
fn is_name_char(c: char) -> (b: bool)
    ensures
        b == name_char(c),
{
    if (c as u32) < 128 {
        ('a' <= c && c <= 'z') || ('A' <= c && c <= 'Z') || c == '@'
    } else {
        is_alphabetic(c) || c == '@'
    }
}

/// The end of the run of name characters from `i`.
pub open spec fn name_end(s: Seq<char>, i: int) -> int
    decreases s.len() - i,
{
    if 0 <= i < s.len() && name_char(s[i]) {
        name_end(s, i + 1)
    } else {
        i
    }
}

/// The command that starts at `start` with a backslash, and the index after
/// it: a run of name characters with an optional `*`, or one other
/// character.
pub open spec fn command_at(s: Seq<char>, start: int) -> Option<(Seq<char>, int)> {
    if start < 0 || start >= s.len() || s[start] != '\\' || start + 1 >= s.len() {
        None
    } else if name_char(s[start + 1]) {
        let e = name_end(s, start + 1);
        if e < s.len() && s[e] == '*' {
            Some((s.subrange(start + 1, e).push('*'), e + 1))
        } else {
            Some((s.subrange(start + 1, e), e))
        }
    } else {
        Some((seq![s[start + 1]], start + 2))
    }
}

/// The views of a command and the index after it.
pub open spec fn command_view(r: Option<(Vec<char>, usize)>) -> Option<(Seq<char>, int)> {
    match r {
        Some((c, e)) => Some((c@, e as int)),
        None => None,
    }
}

pub(crate) fn parse_command(s: &Vec<char>, start: usize) -> (r: Option<(Vec<char>, usize)>)
    ensures
        r matches Some((_, end)) ==> start < end <= s@.len(),
        command_view(r) == command_at(s@, start as int),
{
    if start >= s.len() || s[start] != '\\' {
        return None;
    }
    let mut offset = start + 1;
    if offset >= s.len() {
        return None;
    }
    let first = s[offset];
    let mut command: Vec<char> = Vec::new();
    if is_name_char(first) {
        while offset < s.len() && is_name_char(s[offset])
            invariant
                start < offset <= s.len(),
                command@ == s@.subrange(start + 1, offset as int),
                name_end(s@, start + 1) == name_end(s@, offset as int),
            decreases s.len() - offset,
        {
            command.push(s[offset]);
            offset += 1;
            assert(command@ =~= s@.subrange(start + 1, offset as int));
        }
        if offset < s.len() && s[offset] == '*' {
            command.push('*');
            offset += 1;
        }
        Some((command, offset))
    } else {
        command.push(first);
        Some((command, offset + 1))
    }
}

/// The index of the first non-whitespace character at or after `offset`.
/// The first index at or after `i` whose character is not whitespace.
pub open spec fn ws_end(s: Seq<char>, i: int) -> int
    decreases s.len() - i,
{
    if 0 <= i < s.len() && is_ws_spec(s[i]) {
        ws_end(s, i + 1)
    } else {
        i
    }
}

pub(crate) fn skip_ws(s: &Vec<char>, offset: usize) -> (r: usize)
    ensures
        offset <= s@.len() ==> offset <= r <= s@.len(),
        offset > s@.len() ==> r == offset,
        r == ws_end(s@, offset as int),
{
    let mut i = offset;
    while i < s.len() && is_ws(s[i])
        invariant
            offset <= i,
            offset <= s@.len() ==> i <= s@.len(),
            offset > s@.len() ==> i == offset,
            ws_end(s@, offset as int) == ws_end(s@, i as int),
        decreases s.len() - i,
    {
        i += 1;
    }
    i
}

/// The text between `open` at `start` and its matching `close` (escaped
/// characters not counted) and the index after the close.
/// Where the `close` that matches an earlier `open` stands, scanning from `i`
/// at nesting `depth`; escaped characters do not count.
pub open spec fn delimited_close(s: Seq<char>, i: int, depth: int, open: char, close: char) -> Option<int>
    decreases s.len() - i,
{
    if i < 0 || i >= s.len() {
        None
    } else if backslashes_before(s, i) % 2 == 1 {
        delimited_close(s, i + 1, depth, open, close)
    } else if s[i] == open {
        delimited_close(s, i + 1, if depth < usize::MAX { depth + 1 } else { depth }, open, close)
    } else if s[i] == close && depth > 0 {
        if depth - 1 == 0 {
            Some(i)
        } else {
            delimited_close(s, i + 1, depth - 1, open, close)
        }
    } else {
        delimited_close(s, i + 1, depth, open, close)
    }
}

/// What reading the delimited text at `start` gives: the text up to the
/// matching close and the index after it.
pub open spec fn delimited_at(s: Seq<char>, start: int, open: char, close: char) -> Option<(Seq<char>, int)> {
    if start < 0 || start >= s.len() || s[start] != open {
        None
    } else {
        match delimited_close(s, start, 0, open, close) {
            Some(e) => Some((s.subrange(start + 1, e), e + 1)),
            None => None,
        }
    }
}

pub(crate) fn extract_delimited(s: &Vec<char>, start: usize, open: char, close: char) -> (r: Option<(Vec<char>, usize)>)
    requires
        open != close,
    ensures
        r matches Some((c, end)) ==> start < end <= s@.len() && c@.len() < end - start,
        command_view(r) == delimited_at(s@, start as int, open, close),
{
    if start >= s.len() || s[start] != open {
        return None;
    }
    let mut depth: usize = 0;
    let mut i = start;
    while i < s.len()
        invariant
            start <= i <= s.len(),
            start < s@.len(),
            s@[start as int] == open,
            open != close,
            delimited_close(s@, start as int, 0, open, close) == delimited_close(s@, i as int, depth as int, open, close),
            i == start ==> depth == 0,
            i > start ==> depth > 0 || backslashes_before(s@, start as int) % 2 == 1,
        decreases s.len() - i,
    {
        if !is_escaped(s, i) {
            let c = s[i];
            if c == open {
                if depth < usize::MAX {
                    depth += 1;
                }
            } else if c == close && depth > 0 {
                depth -= 1;
                if depth == 0 {
                    return Some((substring(s, start + 1, i), i + 1));
                }
            }
        }
        i += 1;
    }
    None
}

pub(crate) fn extract_group(s: &Vec<char>, start: usize) -> (r: Option<(Vec<char>, usize)>)
    ensures
        r matches Some((c, end)) ==> start < end <= s@.len() && c@.len() < end - start,
        command_view(r) == delimited_at(s@, start as int, '{', '}'),
{
    extract_delimited(s, start, '{', '}')
}

/// A line without its comment: the text before the first unescaped `%`.
pub(crate) fn strip_comment(line: &Vec<char>) -> (r: Vec<char>)
    ensures
        r@.len() <= line@.len(),
        (forall|j: int| 0 <= j < line@.len() ==> #[trigger] line@[j] != '%') ==> r@ == line@,
{
    let mut i: usize = 0;
    while i < line.len()
        invariant
            i <= line.len(),
        decreases line.len() - i,
    {
        if line[i] == '%' && !is_escaped(line, i) {
            return substring(line, 0, i);
        }
        i += 1;
    }
    copy(line)
}

/// The index of the first unescaped `needle` in `s`.
pub(crate) fn find_unescaped(s: &Vec<char>, needle: char) -> (r: Option<usize>)
    ensures
        r matches Some(i) ==> i < s@.len() && s@[i as int] == needle,
        match r {
            Some(i) => first_unescaped(s@, 0, needle) == Some(i as int),
            None => first_unescaped(s@, 0, needle) is None,
        },
{
    let mut i: usize = 0;
    while i < s.len()
        invariant
            i <= s.len(),
            first_unescaped(s@, 0, needle) == first_unescaped(s@, i as int, needle),
        decreases s.len() - i,
    {
        if s[i] == needle && !is_escaped(s, i) {
            return Some(i);
        }
        i += 1;
    }
    None
}

/// The environment that `\begin{…}` (`begin`) or `\end{…}` (otherwise) opens
/// or closes at the start of `line`.
/// The environment that `\begin{…}` (`begin`) or `\end{…}` (otherwise) at
/// the start of `line` names.
pub open spec fn environment_of(line: Seq<char>, begin: bool) -> Option<Seq<char>> {
    match command_at(line, 0) {
        Some((command, offset)) => if command == (if begin { "begin"@ } else { "end"@ }) {
            match delimited_at(line, ws_end(line, offset), '{', '}') {
                Some((env, _)) => Some(env),
                None => None,
            }
        } else {
            None
        },
        None => None,
    }
}

/// The view of an optional text.
pub open spec fn opt_view(r: Option<Vec<char>>) -> Option<Seq<char>> {
    match r {
        Some(v) => Some(v@),
        None => None,
    }
}

fn environment_command(line: &Vec<char>, begin: bool) -> (r: Option<Vec<char>>)
    ensures
        opt_view(r) == environment_of(line@, begin),
{
    let (command, offset) = match parse_command(line, 0) {
        Some(c) => c,
        None => return None,
    };
    let expected = if begin {
        "begin"
    } else {
        "end"
    };
    if !eq_lit(&command, expected) {
        return None;
    }
    let offset = skip_ws(line, offset);
    match extract_group(line, offset) {
        Some((env, _)) => Some(env),
        None => None,
    }
}

fn begin_env(line: &Vec<char>) -> (r: Option<Vec<char>>)
    ensures
        opt_view(r) == environment_of(line@, true),
{
    environment_command(line, true)
}

fn end_env(line: &Vec<char>) -> Option<Vec<char>> {
    environment_command(line, false)
}

fn is_end_of(line: &Vec<char>, env: &Vec<char>) -> bool {
    match end_env(line) {
        Some(e) => eq(&e, env),
        None => false,
    }
}

fn is_begin_of(line: &Vec<char>, env: &Vec<char>) -> bool {
    match begin_env(line) {
        Some(e) => eq(&e, env),
        None => false,
    }
}

/// The `{…}` groups that follow `\begin{env}` on a line.
/// The brace groups that follow one another from `offset` on, whitespace
/// between them skipped.
pub open spec fn brace_groups_from(s: Seq<char>, offset: int) -> Seq<Seq<char>>
    decreases s.len() - offset,
{
    if offset < 0 || offset >= s.len() {
        seq![]
    } else {
        let o = ws_end(s, offset);
        if o >= s.len() || s[o] != '{' {
            seq![]
        } else {
            match delimited_at(s, o, '{', '}') {
                Some((g, e)) => if offset < e <= s.len() {
                    seq![g] + brace_groups_from(s, e)
                } else {
                    seq![]
                },
                None => seq![],
            }
        }
    }
}

/// The groups after `\begin{env}` at the start of `line`.
pub open spec fn environment_groups(line: Seq<char>) -> Seq<Seq<char>> {
    match command_at(line, 0) {
        Some((_, o)) => match delimited_at(line, ws_end(line, o), '{', '}') {
            Some((_, o2)) => brace_groups_from(line, o2),
            None => seq![],
        },
        None => seq![],
    }
}

pub(crate) fn groups_after_environment(line: &Vec<char>) -> (r: Vec<Vec<char>>)
    ensures
        views(r@) == environment_groups(line@),
{
    let mut groups: Vec<Vec<char>> = Vec::new();
    let offset = match parse_command(line, 0) {
        Some((_, o)) => o,
        None => return groups,
    };
    let offset = skip_ws(line, offset);
    let mut offset = match extract_group(line, offset) {
        Some((_, o)) => o,
        None => return groups,
    };
    let ghost o2 = offset as int;
    assert(views(groups@) =~= seq![]);
    while offset < line.len()
        invariant_except_break
            views(groups@) + brace_groups_from(line@, offset as int) == brace_groups_from(line@, o2),
        invariant
            offset <= line.len(),
        ensures
            views(groups@) == brace_groups_from(line@, o2),
        decreases line.len() - offset,
    {
        let ghost before = groups@;
        let ghost start = offset as int;
        offset = skip_ws(line, offset);
        if offset >= line.len() || line[offset] != '{' {
            assert(brace_groups_from(line@, start) =~= seq![]);
            assert(views(groups@) =~= views(groups@) + brace_groups_from(line@, start));
            break;
        }
        match extract_group(line, offset) {
            Some((g, end)) => {
                groups.push(g);
                offset = end;
                assert(views(groups@) =~= views(before).push(g@));
                assert(views(groups@) + brace_groups_from(line@, offset as int) =~= views(before) + (seq![g@]
                    + brace_groups_from(line@, offset as int)));
            },
            None => {
                assert(brace_groups_from(line@, start) =~= seq![]);
                assert(views(groups@) =~= views(groups@) + brace_groups_from(line@, start));
                break;
            },
        }
    }
    proof {
        if offset >= line.len() {
            assert(brace_groups_from(line@, offset as int) =~= seq![]);
            assert(views(groups@) =~= views(groups@) + brace_groups_from(line@, offset as int));
        }
    }
    groups
}

/// The text inside the first `[…]` of a line.
fn extract_option(line: &Vec<char>) -> Option<Vec<char>> {
    match find_char(line, '[') {
        Some(start) => match extract_delimited(line, start, '[', ']') {
            Some((v, _)) => Some(v),
            None => None,
        },
        None => None,
    }
}

/// The text after `\item` at the start of a line, when `\item` is a whole
/// command there.
fn strip_item(line: &Vec<char>) -> Option<Vec<char>> {
    match strip_prefix_lit(line, "\\item") {
        Some(rest) => {
            if rest.len() == 0 || is_ws(rest[0]) || rest[0] == '[' {
                Some(trim_start(&rest))
            } else {
                None
            }
        },
        None => None,
    }
}

/// The `[term]` of a description item and the rest of its text.
/// The optional `[term]` that starts a description item, and the text after
/// it (leading whitespace removed).
pub open spec fn description_parts(raw: Seq<char>) -> (Seq<char>, Seq<char>) {
    let t = trim_start_spec(raw);
    if !(t.len() > 0 && t[0] == '[') {
        (seq![], t)
    } else {
        match delimited_at(t, 0, '[', ']') {
            Some((term, end)) => (term, trim_start_spec(t.subrange(end, t.len() as int))),
            None => (seq![], t),
        }
    }
}

pub(crate) fn split_description_item(raw: &Vec<char>) -> (r: (Vec<char>, Vec<char>))
    ensures
        r.1@.len() <= raw@.len(),
        (r.0@, r.1@) == description_parts(raw@),
{
    let t = trim_start(raw);
    proof {
        lemma_trim_start_len(raw@);
    }
    if !first_is(&t, '[') {
        return (Vec::new(), t);
    }
    match extract_delimited(&t, 0, '[', ']') {
        Some((term, end)) => {
            let rest = skip(&t, end);
            proof {
                lemma_trim_start_len(rest@);
            }
            (term, trim_start(&rest))
        },
        None => (Vec::new(), t),
    }
}

// ---------------------------------------------------------------------------
// Blocks
// ---------------------------------------------------------------------------

/// The heading level of a sectioning command (a trailing `*` ignored).
pub open spec fn heading_level_of(command: Seq<char>) -> Option<u8> {
    let c = trim_end_char_spec(command, '*');
    if c == "part"@ || c == "chapter"@ || c == "section"@ {
        Some(1u8)
    } else if c == "subsection"@ {
        Some(2u8)
    } else if c == "subsubsection"@ {
        Some(3u8)
    } else if c == "paragraph"@ {
        Some(4u8)
    } else if c == "subparagraph"@ {
        Some(5u8)
    } else {
        None
    }
}

/// The sectioning command that the LaTeX writer gives a heading of level
/// `k`, from one to five, is read back as a heading of level `k`: `\section`,
/// `\subsection`, `\subsubsection`, `\paragraph` and `\subparagraph` are
/// levels one to five, and a starred form has the level of the plain one.
pub proof fn law_heading_command_levels(k: u8)
    requires
        1 <= k <= 5,
    ensures
        heading_level_of(crate::formats::latex::emitter::heading_command_spec(k)) == Some(k),
        heading_level_of(crate::formats::latex::emitter::heading_command_spec(k).push('*')) == Some(k),
{
    reveal_strlit("section");
    reveal_strlit("subsection");
    reveal_strlit("subsubsection");
    reveal_strlit("paragraph");
    reveal_strlit("subparagraph");
    reveal_strlit("part");
    reveal_strlit("chapter");
    let c = crate::formats::latex::emitter::heading_command_spec(k);
    assert(c.len() > 0 && c.last() != '*');
    assert(trim_end_char_spec(c, '*') == c);
    assert(c.push('*').drop_last() =~= c);
    assert(trim_end_char_spec(c.push('*'), '*') == trim_end_char_spec(c, '*'));
}

fn is_heading_command(command: &Vec<char>) -> (r: Option<u8>)
    ensures
        r == heading_level_of(command@),
{
    let c = trim_end_char(command, '*');
    if eq_lit(&c, "part") || eq_lit(&c, "chapter") || eq_lit(&c, "section") {
        Some(1)
    } else if eq_lit(&c, "subsection") {
        Some(2)
    } else if eq_lit(&c, "subsubsection") {
        Some(3)
    } else if eq_lit(&c, "paragraph") {
        Some(4)
    } else if eq_lit(&c, "subparagraph") {
        Some(5)
    } else {
        None
    }
}

fn is_block_start(line: &Vec<char>) -> bool {
    if begin_env(line).is_some() || is_horizontal_rule(line) {
        return true;
    }
    match parse_command(line, 0) {
        Some((command, _)) => is_heading_command(&command).is_some(),
        None => false,
    }
}

/// A command that changes nothing in the document's content.
pub open spec fn ignored_name(c: Seq<char>) -> bool {
    c == "documentclass"@ || c == "usepackage"@ || c == "title"@ || c == "author"@ || c == "date"@
        || c == "maketitle"@ || c == "tableofcontents"@ || c == "centering"@ || c == "raggedright"@
        || c == "newpage"@ || c == "clearpage"@ || c == "small"@ || c == "footnotesize"@ || c
        == "large"@ || c == "Large"@ || c == "LARGE"@
}

/// A line that the reader skips: it starts with an ignored command, or it
/// is `\begin{document}` or `\end{document}`.
pub open spec fn ignored_line(line: Seq<char>) -> bool {
    match command_at(line, 0) {
        Some((c, _)) => ignored_name(c) || line == "\\begin{document}"@ || line == "\\end{document}"@,
        None => false,
    }
}

fn is_ignored_command(line: &Vec<char>) -> (b: bool)
    ensures
        b == ignored_line(line@),
{
    let command = match parse_command(line, 0) {
        Some((c, _)) => c,
        None => return false,
    };
    eq_lit(&command, "documentclass") || eq_lit(&command, "usepackage") || eq_lit(&command, "title")
        || eq_lit(&command, "author") || eq_lit(&command, "date") || eq_lit(&command, "maketitle")
        || eq_lit(&command, "tableofcontents") || eq_lit(&command, "centering") || eq_lit(
        &command,
        "raggedright",
    ) || eq_lit(&command, "newpage") || eq_lit(&command, "clearpage") || eq_lit(&command, "small")
        || eq_lit(&command, "footnotesize") || eq_lit(&command, "large") || eq_lit(&command, "Large")
        || eq_lit(&command, "LARGE") || eq_lit(line, "\\begin{document}") || eq_lit(
        line,
        "\\end{document}",
    )
}

fn is_horizontal_rule(line: &Vec<char>) -> (b: bool)
    ensures
        b ==> line@.len() > 0 && line@[0] == '\\',
{
    proof {
        reveal_strlit("\\hrule");
        reveal_strlit("\\hrulefill");
        reveal_strlit("\\noindent\\hrulefill");
        reveal_strlit("\\rule{\\linewidth}");
        reveal_strlit("\\rule{\\textwidth}");
        lemma_prefix_head(line@, "\\rule{\\linewidth}"@);
        lemma_prefix_head(line@, "\\rule{\\textwidth}"@);
        if line@.len() > 0 {
            assert(line@[0] == line@[0]);
        }
    }
    eq_lit(line, "\\hrule") || eq_lit(line, "\\hrulefill") || eq_lit(line, "\\noindent\\hrulefill")
        || starts_with_lit(line, "\\rule{\\linewidth}") || starts_with_lit(line, "\\rule{\\textwidth}")
}

fn parse_blocks(cur: &mut LineCursor, budget: usize) -> (r: Result<Vec<Block>, ParseError>)
    requires
        old(cur).wf(),
    ensures
        final(cur).moved_from(old(cur)),
        r matches Err(e) ==> error_is(e, stall_detail()),
        old(cur).pos >= old(cur).lines.len() ==> (r matches Ok(b) && b@.len() == 0),
        old(cur).pos == 0 && old(cur).lines@.len() == 1 && plain_line(old(cur).lines@[0]@)
            ==> reads_as_plain_paragraph(r, old(cur).lines@[0]@),
        old(cur).pos == 0 && old(cur).lines@.len() == 1 && (exists|k: u8, l: Seq<char>|
            #[trigger] latex_heading_line(old(cur).lines@[0]@, k, l)) ==> (r matches Ok(b) && heading_of_level(
            b@,
            (heading_title_at(old(cur).lines@[0]@)->0).0,
        )),
    decreases budget, 2nat,
{
    let ghost lhead = old(cur).pos == 0 && old(cur).lines@.len() == 1 && exists|k: u8, l: Seq<char>|
        #[trigger] latex_heading_line(old(cur).lines@[0]@, k, l);
    let ghost kl: (u8, Seq<char>) = if lhead {
        choose|k: u8, l: Seq<char>| #[trigger] latex_heading_line(old(cur).lines@[0]@, k, l)
    } else {
        (0, Seq::empty())
    };
    let ghost single = old(cur).pos == 0 && old(cur).lines@.len() == 1 && plain_line(old(cur).lines@[0]@);
    let ghost l0 = if old(cur).lines@.len() > 0 {
        old(cur).lines@[0]@
    } else {
        Seq::<char>::empty()
    };
    proof {
        if lhead {
            lemma_latex_heading_line(l0, kl.0, kl.1);
        }
    }
    let mut blocks: Vec<Block> = Vec::new();
    while !cur.at_end()
        invariant
            cur.moved_from(old(cur)),
            old(cur).pos >= old(cur).lines.len() ==> blocks@.len() == 0,
            single == (old(cur).pos == 0 && old(cur).lines@.len() == 1 && plain_line(old(cur).lines@[0]@)),
            single ==> l0 == old(cur).lines@[0]@,
            single ==> (cur.pos == 0 && blocks@.len() == 0) || (cur.pos == 1 && plain_paragraph(blocks@, l0)),
            old(cur).lines@.len() > 0 ==> l0 == old(cur).lines@[0]@,
            lhead == (old(cur).pos == 0 && old(cur).lines@.len() == 1 && exists|k: u8, l: Seq<char>|
                #[trigger] latex_heading_line(old(cur).lines@[0]@, k, l)),
            lhead ==> latex_heading_line(l0, kl.0, kl.1) && (heading_title_at(l0)->0).0 == kl.0,
            lhead ==> (cur.pos == 0 && blocks@.len() == 0) || (cur.pos == 1 && heading_of_level(blocks@, kl.0)),
        decreases cur.lines.len() - cur.pos,
    {
        let before = cur.pos;
        proof {
            if single {
                lemma_plain_line(l0);
            }
            if lhead {
                lemma_latex_heading_line(l0, kl.0, kl.1);
            }
        }
        let line = strip_comment(&cur.lines[cur.pos]);
        let t = trim(&line);
        if t.len() == 0 || is_ignored_command(&t) {
            cur.pos += 1;
            continue;
        }
        if let Some(b) = try_parse_heading(&t) {
            blocks.push(b);
            cur.pos += 1;
            continue;
        }
        if let Some(env) = begin_env(&t) {
            if eq_lit(&env, "lstlisting") || eq_lit(&env, "verbatim") || eq_lit(&env, "Verbatim")
                || eq_lit(&env, "minted") {
                blocks.push(parse_code_block(cur, &env));
            } else if eq_lit(&env, "quote") || eq_lit(&env, "quotation") {
                let body = collect_body(cur, &env);
                match parse_nested(&body, budget) {
                    Ok(children) => blocks.push(Block::BlockQuote { children }),
                    Err(e) => return Err(e),
                }
            } else if eq_lit(&env, "itemize") || eq_lit(&env, "enumerate") || eq_lit(
                &env,
                "description",
            ) {
                match parse_list(cur, &env, budget) {
                    Ok(b) => blocks.push(b),
                    Err(e) => return Err(e),
                }
            } else if eq_lit(&env, "tabular") || eq_lit(&env, "tabularx") || eq_lit(
                &env,
                "longtable",
            ) {
                blocks.push(parse_table(cur, &env));
            } else if eq_lit(&env, "document") || eq_lit(&env, "table") || eq_lit(&env, "table*")
                || eq_lit(&env, "center") || eq_lit(&env, "figure") || eq_lit(&env, "figure*") {
                let body = collect_body(cur, &env);
                match parse_nested(&body, budget) {
                    Ok(mut inner) => blocks.append(&mut inner),
                    Err(e) => return Err(e),
                }
            } else {
                blocks.push(parse_raw_environment(cur, &env));
            }
        } else if is_horizontal_rule(&t) {
            blocks.push(Block::HorizontalRule);
            cur.pos += 1;
        } else {
            blocks.push(parse_paragraph(cur));
        }
        if cur.pos == before {
            return Err(stalled());
        }
    }
    Ok(blocks)
}

/// The heading that a sectioning command on the line makes.
/// Where the title group of a sectioning command at the start of `line`
/// starts (after an optional `[…]` short title), with the heading level;
/// `None` where the line is no sectioning command or the short title is not
/// closed.
pub open spec fn heading_title_at(line: Seq<char>) -> Option<(u8, int)> {
    match command_at(line, 0) {
        Some((command, offset)) => match heading_level_of(command) {
            Some(level) => {
                let o = ws_end(line, offset);
                if o < line.len() && line[o] == '[' {
                    match delimited_at(line, o, '[', ']') {
                        Some((_, end)) => Some((level, ws_end(line, end))),
                        None => None,
                    }
                } else {
                    Some((level, o))
                }
            },
            None => None,
        },
        None => None,
    }
}

/// A heading line as the LaTeX writer writes a heading of level `k` holding
/// the plain line `l`: the sectioning command, then `l` in braces.
pub open spec fn latex_heading_line(h: Seq<char>, k: u8, l: Seq<char>) -> bool {
    &&& 1 <= k <= 5
    &&& plain_line(l)
    &&& h == "\\"@ + crate::formats::latex::emitter::heading_command_spec(k) + "{"@ + l + "}"@
}

/// A text that is one such heading line, with or without a final newline.
pub open spec fn latex_heading_text(s: Seq<char>, k: u8, l: Seq<char>) -> bool {
    latex_heading_line(s, k, l) || (s.len() > 0 && s.last() == '\n' && latex_heading_line(s.drop_last(), k, l))
}

/// The blocks are one heading of level `k`.
pub open spec fn heading_of_level(b: Seq<Block>, k: u8) -> bool {
    b.len() == 1 && (b[0] matches Block::Heading { level, .. } && level == k)
}

proof fn lemma_name_run(s: Seq<char>, i: int, e: int)
    requires
        0 <= i <= e < s.len(),
        forall|j: int| i <= j < e ==> name_char(#[trigger] s[j]),
        !name_char(s[e]),
    ensures
        name_end(s, i) == e,
    decreases e - i,
{
    if i < e {
        lemma_name_run(s, i + 1, e);
    }
}

proof fn lemma_brace_run(s: Seq<char>, i: int, last: int)
    requires
        1 <= i <= last < s.len(),
        s[last] == '}',
        forall|j: int| i <= j < last ==> #[trigger] s[j] != '{' && s[j] != '}',
        forall|j: int| i - 1 <= j < last ==> #[trigger] s[j] != '\\',
    ensures
        delimited_close(s, i, 1, '{', '}') == Some(last),
    decreases last - i,
{
    assert(backslashes_before(s, i) == 0);
    if i < last {
        lemma_brace_run(s, i + 1, last);
    }
}

/// What a written heading line is: its own trimmed form without comments,
/// not skipped, and read as a heading of level `k` whose text closes at its
/// end.
proof fn lemma_latex_heading_line(h: Seq<char>, k: u8, l: Seq<char>)
    requires
        latex_heading_line(h, k, l),
    ensures
        trim_spec(h) == h,
        forall|j: int| 0 <= j < h.len() ==> #[trigger] h[j] != '%' && h[j] != '\n',
        !ignored_line(h),
        heading_title_at(h) matches Some((lv, o)) && lv == k && delimited_at(h, o, '{', '}') is Some,
        lines_spec(h) == seq![h],
        lines_spec(h.push('\n')) == seq![h],
{
    reveal_strlit("\\");
    reveal_strlit("{");
    reveal_strlit("}");
    reveal_strlit("section");
    reveal_strlit("subsection");
    reveal_strlit("subsubsection");
    reveal_strlit("paragraph");
    reveal_strlit("subparagraph");
    law_heading_command_levels(k);
    crate::formats::common::lemma_plain_line_text(l);
    let c = crate::formats::latex::emitter::heading_command_spec(k);
    let e: int = c.len() as int + 1;
    assert(forall|i: int| 0 <= i < c.len() ==> 'a' <= #[trigger] c[i] && c[i] <= 'z');
    assert(h.len() == c.len() + l.len() + 3);
    assert forall|j: int| 1 <= j < e implies name_char(#[trigger] h[j]) by {
        assert(h[j] == c[j - 1]);
        assert('a' <= c[j - 1] && c[j - 1] <= 'z');
    }
    assert(h[e] == '{');
    lemma_name_run(h, 1, e);
    assert(h.subrange(1, e) =~= c);
    assert(command_at(h, 0) == Some((c, e)));
    assert(ws_end(h, e) == e);
    assert(heading_title_at(h) == Some((k, e)));
    let last: int = h.len() as int - 1;
    assert(h[last] == '}');
    assert forall|j: int| e + 1 <= j < last implies #[trigger] h[j] != '{' && h[j] != '}' by {
        assert(h[j] == l[j - e - 1]);
        assert(plain_char(l[j - e - 1]));
    }
    assert forall|j: int| e <= j < last implies #[trigger] h[j] != '\\' by {
        if j > e {
            assert(h[j] == l[j - e - 1]);
            assert(plain_char(l[j - e - 1]));
        }
    }
    lemma_brace_run(h, e + 1, last);
    assert(delimited_close(h, e, 0, '{', '}') == delimited_close(h, e + 1, 1, '{', '}'));
    assert(delimited_at(h, e, '{', '}') is Some);
    assert forall|j: int| 0 <= j < h.len() implies #[trigger] h[j] != '%' && h[j] != '\n' by {
        if 1 <= j < e {
            assert(h[j] == c[j - 1]);
        } else if e < j < last {
            assert(h[j] == l[j - e - 1]);
            assert(plain_char(l[j - e - 1]));
        }
    }
    assert(!ignored_name(c)) by {
        reveal_strlit("documentclass");
        reveal_strlit("usepackage");
        reveal_strlit("title");
        reveal_strlit("author");
        reveal_strlit("date");
        reveal_strlit("maketitle");
        reveal_strlit("tableofcontents");
        reveal_strlit("centering");
        reveal_strlit("raggedright");
        reveal_strlit("newpage");
        reveal_strlit("clearpage");
        reveal_strlit("small");
        reveal_strlit("footnotesize");
        reveal_strlit("large");
        reveal_strlit("Large");
        reveal_strlit("LARGE");
        assert(c.len() >= 7 && (c[0] == 's' || c[0] == 'p'));
    }
    assert(h != "\\begin{document}"@) by {
        reveal_strlit("\\begin{document}");
        if h == "\\begin{document}"@ {
            assert(h[1] == c[0]);
        }
    }
    assert(h != "\\end{document}"@) by {
        reveal_strlit("\\end{document}");
        if h == "\\end{document}"@ {
            assert(h[1] == c[0]);
        }
    }
    assert(!is_ws_spec(h[0]));
    assert(!is_ws_spec(h.last()));
    assert(trim_start_spec(h) == h);
    assert(crate::text::trim_end_spec(h) == h);
    crate::text::lemma_index_of_char(h, '\n');
    let w = h.push('\n');
    crate::text::lemma_index_of_char(w, '\n');
    assert(w[h.len() as int] == '\n');
    assert(w.subrange(0, h.len() as int) =~= h);
    assert(w.subrange(h.len() as int + 1, w.len() as int) =~= Seq::<char>::empty());
    assert(lines_spec(Seq::<char>::empty()) == Seq::<Seq<char>>::empty());
    assert(seq![h] + Seq::<Seq<char>>::empty() =~= seq![h]);
}

pub(crate) fn try_parse_heading(line: &Vec<char>) -> (r: Option<Block>)
    ensures
        r matches Some(b) ==> b is Heading,
        match heading_title_at(line@) {
            Some((level, o)) => (r is Some) == (delimited_at(line@, o, '{', '}') is Some) && (r matches Some(
                b,
            ) ==> (b matches Block::Heading { level: l, .. } && l == level)),
            None => r is None,
        },
{
    let (command, offset) = match parse_command(line, 0) {
        Some(c) => c,
        None => return None,
    };
    let level = match is_heading_command(&command) {
        Some(l) => l,
        None => return None,
    };
    let mut offset = skip_ws(line, offset);
    if offset < line.len() && line[offset] == '[' {
        match extract_delimited(line, offset, '[', ']') {
            Some((_, end)) => offset = skip_ws(line, end),
            None => return None,
        }
    }
    match extract_group(line, offset) {
        Some((content, _)) => Some(Block::Heading { level, content: latex_inlines(&content) }),
        None => None,
    }
}

/// The `language=` value of an option list.
/// The value of an option `language=value` (the key in any case).
pub open spec fn language_of_part(p: Seq<char>) -> Option<Seq<char>> {
    match first_match_from(p, 0, "="@) {
        Some(i) => if ascii_lower_spec(trim_spec(p.subrange(0, i))) == ascii_lower_spec("language"@) {
            Some(trim_spec(p.subrange(i + 1, p.len() as int)))
        } else {
            None
        },
        None => None,
    }
}

/// The first language option among the options from `k` on.
pub open spec fn language_from(parts: Seq<Seq<char>>, k: int) -> Option<Seq<char>>
    decreases parts.len() - k,
{
    if k < 0 || k >= parts.len() {
        None
    } else {
        match language_of_part(parts[k]) {
            Some(v) => Some(v),
            None => language_from(parts, k + 1),
        }
    }
}

fn language_option(options: &Vec<char>) -> (r: Option<Vec<char>>)
    ensures
        opt_view(r) == language_from(split_spec(options@, ','), 0),
{
    proof {
        reveal_strlit("=");
    }
    let parts = split_char(options, ',');
    let ghost ps = split_spec(options@, ',');
    let mut k: usize = 0;
    while k < parts.len()
        invariant
            k <= parts.len(),
            views(parts@) == ps,
            ps == split_spec(options@, ','),
            language_from(ps, 0) == language_from(ps, k as int),
        decreases parts.len() - k,
    {
        proof {
            reveal_strlit("=");
            lemma_first_match_from(parts@[k as int]@, "="@, 0);
        }
        assert(parts@[k as int]@ == ps[k as int]);
        if let Some((key, value)) = split_once_lit(&parts[k], "=") {
            let ghost i = choose|i: int|
                {
                    &&& occurs_at(parts@[k as int]@, "="@, i)
                    &&& forall|j: int| 0 <= j < i ==> !occurs_at(parts@[k as int]@, "="@, j)
                    &&& key@ == parts@[k as int]@.subrange(0, i)
                    &&& value@ == parts@[k as int]@.subrange(i + 1, parts@[k as int]@.len() as int)
                };
            assert(first_match_from(ps[k as int], 0, "="@) == Some(i));
            if eq_ignore_case_lit(&trim(&key), "language") {
                let v = trim(&value);
                assert(key@ == ps[k as int].subrange(0, i));
                assert(value@ == ps[k as int].subrange(i + 1, ps[k as int].len() as int));
                assert(language_of_part(ps[k as int]) == Some(v@));
                assert(language_from(ps, k as int) == Some(v@));
                assert(language_from(split_spec(options@, ','), 0) == Some(v@));
                let r = Some(v);
                assert(opt_view(r) == language_from(split_spec(options@, ','), 0));
                return r;
            }
        }
        k += 1;
    }
    None
}

fn parse_code_block(cur: &mut LineCursor, env: &Vec<char>) -> (b: Block)
    requires
        old(cur).wf(),
        old(cur).pos < old(cur).lines.len(),
    ensures
        final(cur).moved_from(old(cur)),
        final(cur).pos > old(cur).pos,
{
    let opening = cur.trimmed();
    let language = if eq_lit(env, "minted") {
        let groups = groups_after_environment(&opening);
        if groups.len() > 0 && groups[groups.len() - 1].len() > 0 {
            Some(string_of(&groups[groups.len() - 1]))
        } else {
            None
        }
    } else {
        match extract_option(&opening) {
            Some(options) => match language_option(&options) {
                Some(l) => Some(string_of(&l)),
                None => None,
            },
            None => None,
        }
    };
    cur.pos += 1;
    let mut content: Vec<Vec<char>> = Vec::new();
    while !cur.at_end()
        invariant
            cur.moved_from(old(cur)),
            cur.pos > old(cur).pos,
        decreases cur.lines.len() - cur.pos,
    {
        let l = cur.line();
        if is_end_of(&trim(&l), env) {
            cur.pos += 1;
            break;
        }
        content.push(l);
        cur.pos += 1;
    }
    Block::CodeBlock { language, content: string_of(&join(&content, "\n")) }
}

/// The lines of an environment's body, nested environments of the same name
/// included, joined with newlines; the cursor moves past the `\end`.
fn collect_body(cur: &mut LineCursor, env: &Vec<char>) -> (r: Vec<char>)
    requires
        old(cur).wf(),
        old(cur).pos < old(cur).lines.len(),
    ensures
        final(cur).moved_from(old(cur)),
        final(cur).pos > old(cur).pos,
{
    cur.pos += 1;
    let mut depth: usize = 0;
    let mut ls: Vec<Vec<char>> = Vec::new();
    while !cur.at_end()
        invariant
            cur.moved_from(old(cur)),
            cur.pos > old(cur).pos,
        decreases cur.lines.len() - cur.pos,
    {
        let line = cur.line();
        let t = trim(&strip_comment(&line));
        if is_begin_of(&t, env) {
            if depth < usize::MAX {
                depth += 1;
            }
            ls.push(line);
            cur.pos += 1;
            continue;
        }
        if is_end_of(&t, env) {
            if depth == 0 {
                cur.pos += 1;
                break;
            }
            depth -= 1;
            ls.push(line);
            cur.pos += 1;
            continue;
        }
        ls.push(line);
        cur.pos += 1;
    }
    join(&ls, "\n")
}

fn parse_list(cur: &mut LineCursor, env: &Vec<char>, budget: usize) -> (r: Result<Block, ParseError>)
    requires
        old(cur).wf(),
        old(cur).pos < old(cur).lines.len(),
    ensures
        final(cur).moved_from(old(cur)),
        final(cur).pos > old(cur).pos,
        r matches Err(e) ==> error_is(e, stall_detail()),
    decreases budget, 1nat,
{
    cur.pos += 1;
    let mut raw_items: Vec<Vec<char>> = Vec::new();
    let mut current: Option<Vec<Vec<char>>> = None;
    let mut nested: usize = 0;
    while !cur.at_end()
        invariant
            cur.moved_from(old(cur)),
            cur.pos > old(cur).pos,
        decreases cur.lines.len() - cur.pos,
    {
        let line = cur.line();
        let t = trim(&strip_comment(&line));
        if nested == 0 && is_end_of(&t, env) {
            if let Some(ls) = current {
                raw_items.push(join(&ls, "\n"));
            }
            current = None;
            cur.pos += 1;
            break;
        }
        if nested == 0 {
            if let Some(item) = strip_item(&t) {
                let mut first: Vec<Vec<char>> = Vec::new();
                first.push(item);
                if let Some(ls) = current {
                    raw_items.push(join(&ls, "\n"));
                }
                current = Some(first);
                cur.pos += 1;
                continue;
            }
        }
        if let Some(mut ls) = current {
            ls.push(copy(&line));
            current = Some(ls);
        } else {
            current = None;
        }
        if begin_env(&t).is_some() {
            if nested < usize::MAX {
                nested += 1;
            }
        } else if end_env(&t).is_some() && nested > 0 {
            nested -= 1;
        }
        cur.pos += 1;
    }
    if eq_lit(env, "description") {
        let mut items: Vec<DescriptionItem> = Vec::new();
        let mut k: usize = 0;
        while k < raw_items.len()
            invariant
                k <= raw_items.len(),
                cur.moved_from(old(cur)),
                cur.pos > old(cur).pos,
            decreases raw_items.len() - k,
        {
            let (term, definition) = split_description_item(&raw_items[k]);
            let blocks = match parse_nested(&definition, budget) {
                Ok(b) => b,
                Err(e) => return Err(e),
            };
            let mut defs: Vec<Vec<Block>> = Vec::new();
            defs.push(blocks);
            items.push(DescriptionItem { term: latex_inlines(&term), definitions: defs });
            k += 1;
        }
        return Ok(Block::DescriptionList { items });
    }
    let mut items: Vec<ListItem> = Vec::new();
    let mut k: usize = 0;
    while k < raw_items.len()
        invariant
            k <= raw_items.len(),
            cur.moved_from(old(cur)),
            cur.pos > old(cur).pos,
        decreases raw_items.len() - k,
    {
        let content = match parse_nested(&trim(&raw_items[k]), budget) {
            Ok(b) => b,
            Err(e) => return Err(e),
        };
        items.push(ListItem { content });
        k += 1;
    }
    if eq_lit(env, "itemize") {
        Ok(Block::UnorderedList { items })
    } else {
        Ok(Block::OrderedList { start: 1, items })
    }
}

/// The column alignments of a tabular column spec: `l` is the default,
/// `p`/`m`/`b`/`X` left, `c` centre, `r` right; `@{…}`, `!{…}`, `>{…}` and
/// `<{…}` are skipped.
/// The index after the `}` that closes the group being skipped from `i` at
/// nesting `depth` (or the end).
pub open spec fn group_skip_end(s: Seq<char>, i: int, depth: int) -> int
    decreases s.len() - i,
{
    if i < 0 || i >= s.len() {
        i
    } else if s[i] == '{' {
        group_skip_end(s, i + 1, if depth < usize::MAX { depth + 1 } else { depth })
    } else if s[i] == '}' && depth == 1 {
        i + 1
    } else if s[i] == '}' && depth > 0 {
        group_skip_end(s, i + 1, depth - 1)
    } else {
        group_skip_end(s, i + 1, depth)
    }
}

proof fn lemma_group_skip_end(s: Seq<char>, i: int, depth: int)
    requires
        0 <= i <= s.len(),
    ensures
        i <= group_skip_end(s, i, depth) <= s.len(),
        i < s.len() ==> i < group_skip_end(s, i, depth),
    decreases s.len() - i,
{
    if i < s.len() {
        let d2 = if s[i] == '{' {
            if depth < usize::MAX { depth + 1 } else { depth }
        } else if s[i] == '}' && depth > 0 {
            depth - 1
        } else {
            depth
        };
        lemma_group_skip_end(s, i + 1, d2);
    }
}

/// The alignments that a column specification gives from `i` on: `l` the
/// default, `p`, `m`, `b` and `X` left, `c` centred, `r` right; `@{…}`,
/// `!{…}`, `>{…}` and `<{…}` are skipped with their group.
pub open spec fn column_alignments_from(s: Seq<char>, i: int) -> Seq<ColumnAlignment>
    decreases s.len() - i,
{
    if i < 0 || i >= s.len() {
        seq![]
    } else {
        let c = s[i];
        let j = i + 1;
        if c == 'l' {
            seq![ColumnAlignment::Default] + column_alignments_from(s, j)
        } else if c == 'p' || c == 'm' || c == 'b' || c == 'X' {
            seq![ColumnAlignment::Left] + column_alignments_from(s, j)
        } else if c == 'c' {
            seq![ColumnAlignment::Center] + column_alignments_from(s, j)
        } else if c == 'r' {
            seq![ColumnAlignment::Right] + column_alignments_from(s, j)
        } else if (c == '@' || c == '!' || c == '>' || c == '<') && j < s.len() && s[j] == '{' {
            let e = group_skip_end(s, j, 0);
            if i < e <= s.len() {
                column_alignments_from(s, e)
            } else {
                seq![]
            }
        } else {
            column_alignments_from(s, j)
        }
    }
}

pub(crate) fn column_alignments(spec: &Vec<char>) -> (v: Vec<ColumnAlignment>)
    ensures
        v@ == column_alignments_from(spec@, 0),
{
    let mut v: Vec<ColumnAlignment> = Vec::new();
    let mut i: usize = 0;
    while i < spec.len()
        invariant
            i <= spec.len(),
            v@ + column_alignments_from(spec@, i as int) == column_alignments_from(spec@, 0),
        decreases spec.len() - i,
    {
        let ghost v0 = v@;
        let ghost i0 = i as int;
        let c = spec[i];
        i += 1;
        if c == 'l' {
            v.push(ColumnAlignment::Default);
        } else if c == 'p' || c == 'm' || c == 'b' || c == 'X' {
            v.push(ColumnAlignment::Left);
        } else if c == 'c' {
            v.push(ColumnAlignment::Center);
        } else if c == 'r' {
            v.push(ColumnAlignment::Right);
        } else if (c == '@' || c == '!' || c == '>' || c == '<') && i < spec.len() && spec[i] == '{' {
            let mut depth: usize = 0;
            let ghost j0 = i as int;
            proof {
                lemma_group_skip_end(spec@, j0, 0);
            }
            while i < spec.len()
                invariant_except_break
                    group_skip_end(spec@, j0, 0) == group_skip_end(spec@, i as int, depth as int),
                invariant
                    j0 <= i <= spec.len(),
                ensures
                    i == group_skip_end(spec@, j0, 0),
                decreases spec.len() - i,
            {
                let n = spec[i];
                i += 1;
                if n == '{' {
                    if depth < usize::MAX {
                        depth += 1;
                    }
                } else if n == '}' && depth == 1 {
                    break;
                } else if n == '}' && depth > 0 {
                    depth -= 1;
                }
            }
        }
        proof {
            assert(v@ + column_alignments_from(spec@, i as int) =~= v0 + column_alignments_from(spec@, i0));
        }
    }
    assert(v@ + column_alignments_from(spec@, i as int) =~= v@);
    v
}

fn table_alignments(opening: &Vec<char>, env: &Vec<char>) -> Vec<ColumnAlignment> {
    let groups = groups_after_environment(opening);
    let idx: usize = if eq_lit(env, "tabularx") {
        1
    } else {
        0
    };
    if idx < groups.len() {
        column_alignments(&groups[idx])
    } else {
        Vec::new()
    }
}

/// The rows of a tabular body: its text split at `\\` outside braces.
/// The rows of a table body from `i` on, split at `\\\\` outside braces,
/// with `current` the row read so far and `depth` the brace nesting; a last
/// row that is blank is dropped.
pub open spec fn rows_from(s: Seq<char>, i: int, current: Seq<char>, depth: int) -> Seq<Seq<char>>
    decreases s.len() - i,
{
    if i < 0 || i >= s.len() {
        if all_ws(current) {
            seq![]
        } else {
            seq![current]
        }
    } else if depth == 0 && i + 1 < s.len() && s[i] == '\\' && s[i + 1] == '\\' {
        seq![current] + rows_from(s, i + 2, seq![], 0)
    } else {
        let c = s[i];
        let escaped = backslashes_before(s, i) % 2 == 1;
        let nd = if c == '{' && !escaped {
            if depth < usize::MAX { depth + 1 } else { depth }
        } else if c == '}' && !escaped && depth > 0 {
            depth - 1
        } else {
            depth
        };
        rows_from(s, i + 1, current.push(c), nd)
    }
}

pub(crate) fn split_rows(body: &Vec<char>) -> (rows: Vec<Vec<char>>)
    ensures
        views(rows@) == rows_from(body@, 0, seq![], 0),
{
    let mut rows: Vec<Vec<char>> = Vec::new();
    let mut current: Vec<char> = Vec::new();
    let mut depth: usize = 0;
    let mut i: usize = 0;
    assert(views(rows@) =~= seq![]);
    while i < body.len()
        invariant
            i <= body.len(),
            views(rows@) + rows_from(body@, i as int, current@, depth as int) == rows_from(body@, 0, seq![], 0),
        decreases body.len() - i,
    {
        let ghost r0 = views(rows@);
        if depth == 0 && i + 1 < body.len() && body[i] == '\\' && body[i + 1] == '\\' {
            let ghost cur0 = current@;
            rows.push(current);
            current = Vec::new();
            i += 2;
            assert(views(rows@) =~= r0.push(cur0));
            assert(views(rows@) + rows_from(body@, i as int, current@, depth as int) =~= r0 + (seq![cur0]
                + rows_from(body@, i as int, seq![], 0)));
            continue;
        }
        let c = body[i];
        if c == '{' && !is_escaped(body, i) {
            if depth < usize::MAX {
                depth += 1;
            }
        } else if c == '}' && !is_escaped(body, i) {
            if depth > 0 {
                depth -= 1;
            }
        }
        current.push(c);
        i += 1;
    }
    let ghost r0 = views(rows@);
    if !is_blank(&current) {
        let ghost cur0 = current@;
        rows.push(current);
        assert(views(rows@) =~= r0 + seq![cur0]);
    } else {
        assert(r0 + seq![] =~= r0);
    }
    rows
}

/// Removes the rule commands of a table row.
pub(crate) fn strip_rules(row: &Vec<char>) -> Vec<char> {
    proof {
        reveal_strlit("\\hline");
        reveal_strlit("\\toprule");
        reveal_strlit("\\midrule");
        reveal_strlit("\\bottomrule");
        reveal_strlit("\\cline");
        reveal_strlit("\\cmidrule");
    }
    let mut r = replace_lit(row, "\\hline", "");
    r = replace_lit(&r, "\\toprule", "");
    r = replace_lit(&r, "\\midrule", "");
    r = replace_lit(&r, "\\bottomrule", "");
    r = strip_range_rule(r, "\\cline");
    strip_range_rule(r, "\\cmidrule")
}

/// Removes each occurrence of `command` and the `{…}` range after it.
/// `r` with every occurrence of the command `needle` removed, each with the
/// brace group that follows it (whitespace before the group included).
pub open spec fn without_rule(r: Seq<char>, needle: Seq<char>) -> Seq<char>
    decreases r.len(),
{
    match first_match_from(r, 0, needle) {
        None => r,
        Some(start) => {
            let after = start + needle.len();
            let end = match delimited_at(r, ws_end(r, after), '{', '}') {
                Some((_, e)) => e,
                None => after,
            };
            if 0 <= start < end <= r.len() {
                without_rule(r.subrange(0, start) + r.subrange(end, r.len() as int), needle)
            } else {
                r
            }
        },
    }
}

fn strip_range_rule(row: Vec<char>, command: &str) -> (out: Vec<char>)
    requires
        command@.len() > 0,
    ensures
        out@ == without_rule(row@, command@),
{
    let needle = chars_of(command);
    let mut r = row;
    loop
        invariant
            needle@.len() > 0,
            needle@ == command@,
            without_rule(r@, needle@) == without_rule(row@, command@),
        ensures
            r@ == without_rule(row@, command@),
        decreases r@.len(),
    {
        proof {
            lemma_first_match_from(r@, needle@, 0);
        }
        let start = match find(&r, &needle) {
            Some(s) => s,
            None => {
                assert(first_match_from(r@, 0, needle@) is None);
                assert(without_rule(r@, needle@) == r@);
                break;
            },
        };
        assert(first_match_from(r@, 0, needle@) == Some(start as int));
        let after = start + needle.len();
        let gs = skip_ws(&r, after);
        let end = match extract_group(&r, gs) {
            Some((_, e)) => e,
            None => after,
        };
        let mut next = substring(&r, 0, start);
        push_all(&mut next, &skip(&r, end));
        assert(next@ == r@.subrange(0, start as int) + r@.subrange(end as int, r@.len() as int));
        assert(without_rule(r@, needle@) == without_rule(next@, needle@));
        r = next;
    }
    r
}

/// A row's text split at `delim` outside braces (escaped ones not counted).
pub(crate) fn split_top_level(input: &Vec<char>, delim: char) -> (r: Vec<Vec<char>>)
    ensures
        r@.len() >= 1,
{
    let mut parts: Vec<Vec<char>> = Vec::new();
    let mut current: Vec<char> = Vec::new();
    let mut depth: usize = 0;
    let mut i: usize = 0;
    while i < input.len()
        invariant
            i <= input.len(),
        decreases input.len() - i,
    {
        let c = input[i];
        let escaped = is_escaped(input, i);
        if c == '{' && !escaped {
            if depth < usize::MAX {
                depth += 1;
            }
            current.push(c);
        } else if c == '}' && !escaped {
            if depth > 0 {
                depth -= 1;
            }
            current.push(c);
        } else if c == delim && depth == 0 && !escaped {
            parts.push(current);
            current = Vec::new();
        } else {
            current.push(c);
        }
        i += 1;
    }
    parts.push(current);
    parts
}

/// The groups of `\command{…}{…}…` (exactly `count` of them) when the whole
/// text is that command.
/// `count` brace groups read one after the other from `offset` (whitespace
/// before each skipped), and the index after the last.
pub open spec fn groups_from(s: Seq<char>, offset: int, count: nat) -> Option<(Seq<Seq<char>>, int)>
    decreases count,
{
    if count == 0 {
        Some((seq![], offset))
    } else {
        match delimited_at(s, ws_end(s, offset), '{', '}') {
            Some((g, e)) => match groups_from(s, e, (count - 1) as nat) {
                Some((gs, end)) => Some((seq![g] + gs, end)),
                None => None,
            },
            None => None,
        }
    }
}

/// The groups of `\expected{…}…{…}` (`count` of them) when the input is
/// that command with nothing but whitespace after it.
pub open spec fn command_groups_of(s: Seq<char>, expected: Seq<char>, count: nat) -> Option<Seq<Seq<char>>> {
    match command_at(s, 0) {
        Some((c, off)) => if c == expected {
            match groups_from(s, off, count) {
                Some((gs, end)) => if all_ws(s.subrange(end, s.len() as int)) {
                    Some(gs)
                } else {
                    None
                },
                None => None,
            }
        } else {
            None
        },
        None => None,
    }
}

proof fn lemma_groups_step(s: Seq<char>, offset: int, count: nat, g: Seq<char>, e: int)
    requires
        count > 0,
        delimited_at(s, ws_end(s, offset), '{', '}') == Some((g, e)),
    ensures
        groups_from(s, offset, count) == (match groups_from(s, e, (count - 1) as nat) {
            Some((gs, end)) => Some((seq![g] + gs, end)),
            None => None,
        }),
{
}

fn command_groups(input: &Vec<char>, expected: &str, count: usize) -> (r: Option<Vec<Vec<char>>>)
    ensures
        r matches Some(g) ==> g@.len() == count && forall|k: int| 0 <= k < count ==> (#[trigger] g@[k])@.len() < input@.len(),
        (match r {
            Some(g) => Some(views(g@)),
            None => None,
        }) == command_groups_of(input@, expected@, count as nat),
{
    let (command, mut offset) = match parse_command(input, 0) {
        Some(c) => c,
        None => return None,
    };
    if !eq_lit(&command, expected) {
        return None;
    }
    let ghost off0 = offset as int;
    assert(command_at(input@, 0) == Some((command@, off0)));
    assert(command@ == expected@);
    let mut groups: Vec<Vec<char>> = Vec::new();
    let mut k: usize = 0;
    while k < count
        invariant
            k <= count,
            groups@.len() == k,
            offset <= input@.len(),
            forall|j: int| 0 <= j < k ==> (#[trigger] groups@[j])@.len() < input@.len(),
            command_at(input@, 0) == Some((expected@, off0)),
            groups_from(input@, off0, count as nat) == (match groups_from(input@, offset as int, (count - k) as nat) {
                Some((gs, end)) => Some((views(groups@) + gs, end)),
                None => None,
            }),
        decreases count - k,
    {
        let ghost before = groups@;
        let ghost o = offset as int;
        offset = skip_ws(input, offset);
        match extract_group(input, offset) {
            Some((g, end)) => {
                proof {
                    lemma_groups_step(input@, o, (count - k) as nat, g@, end as int);
                }
                groups.push(g);
                offset = end;
                assert(views(groups@) =~= views(before).push(g@));
                proof {
                    match groups_from(input@, offset as int, (count - k - 1) as nat) {
                        Some((gs, e2)) => {
                            assert(views(groups@) + gs =~= views(before) + (seq![g@] + gs));
                        },
                        None => {},
                    }
                }
            },
            None => {
                assert(delimited_at(input@, ws_end(input@, o), '{', '}') is None);
                assert(groups_from(input@, o, (count - k) as nat) is None);
                assert(groups_from(input@, off0, count as nat) is None);
                assert(command_groups_of(input@, expected@, count as nat) is None);
                return None;
            },
        }
        k += 1;
    }
    assert(views(groups@) + seq![] =~= views(groups@));
    if is_blank(&skip(input, offset)) {
        Some(groups)
    } else {
        None
    }
}

/// A table cell, with `\multicolumn{n}{…}{…}` and `\multirow{n}{…}{…}`
/// read as spans.
/// A span given as a number, 1 where it is none or does not fit in `u32`.
pub open spec fn latex_span(d: Seq<char>) -> u32 {
    match parse_unsigned_spec(trim_spec(d), 4294967295) {
        Some(n) => n as u32,
        None => 1,
    }
}

/// The spans and the content of a table cell: `\multicolumn{n}{…}{x}` sets
/// the column span and `\multirow{n}{…}{x}` the row span, each unwrapping
/// its third group, as long as the content is such a command.
pub open spec fn cell_spans_of(content: Seq<char>, colspan: u32, rowspan: u32) -> (u32, u32, Seq<char>)
    decreases content.len(),
{
    match command_groups_of(content, "multicolumn"@, 3) {
        Some(args) => if args.len() == 3 && args[2].len() < content.len() {
            cell_spans_of(args[2], latex_span(args[0]), rowspan)
        } else {
            (colspan, rowspan, content)
        },
        None => match command_groups_of(content, "multirow"@, 3) {
            Some(args) => if args.len() == 3 && args[2].len() < content.len() {
                cell_spans_of(args[2], colspan, latex_span(args[0]))
            } else {
                (colspan, rowspan, content)
            },
            None => (colspan, rowspan, content),
        },
    }
}

pub(crate) fn parse_table_cell(input: &Vec<char>) -> (c: TableCell)
    ensures
        (c.colspan, c.rowspan) == ({
            let s = cell_spans_of(trim_spec(input@), 1, 1);
            (s.0, s.1)
        }),
        inlines_model(c.content@) == latex_inline_model(trim_spec(cell_spans_of(trim_spec(input@), 1, 1).2)),
{
    let mut content = trim(input);
    let mut colspan: u32 = 1;
    let mut rowspan: u32 = 1;
    let ghost target = cell_spans_of(trim_spec(input@), 1, 1);
    loop
        invariant
            cell_spans_of(content@, colspan, rowspan) == target,
        ensures
            target.0 == colspan && target.1 == rowspan && target.2 == content@,
        decreases content@.len(),
    {
        if let Some(args) = command_groups(&content, "multicolumn", 3) {
            assert(views(args@).len() == 3);
            colspan = match parse_unsigned(&trim(&args[0]), 4294967295) {
                Some(n) => n as u32,
                None => 1,
            };
            assert(colspan == latex_span(views(args@)[0]));
            content = copy(&args[2]);
            continue;
        }
        if let Some(args) = command_groups(&content, "multirow", 3) {
            assert(views(args@).len() == 3);
            rowspan = match parse_unsigned(&trim(&args[0]), 4294967295) {
                Some(n) => n as u32,
                None => 1,
            };
            assert(rowspan == latex_span(views(args@)[0]));
            content = copy(&args[2]);
            continue;
        }
        break;
    }
    TableCell::with_span(latex_inlines(&trim(&content)), colspan, rowspan)
}

fn parse_table(cur: &mut LineCursor, env: &Vec<char>) -> (b: Block)
    requires
        old(cur).wf(),
        old(cur).pos < old(cur).lines.len(),
    ensures
        final(cur).moved_from(old(cur)),
        final(cur).pos > old(cur).pos,
{
    let opening = cur.trimmed();
    let alignments = table_alignments(&opening, env);
    let body = collect_body(cur, env);
    table_from_body(&body, alignments)
}

/// The table of a tabular body: rows split at `\\`, rules removed, cells
/// split at `&`; the first row is the header.
pub(crate) fn table_from_body(body: &Vec<char>, alignments: Vec<ColumnAlignment>) -> (b: Block)
    ensures
        b is Table,
{
    let raw = split_rows(body);
    let mut parsed: Vec<Vec<TableCell>> = Vec::new();
    let mut r: usize = 0;
    while r < raw.len()
        invariant
            r <= raw.len(),
        decreases raw.len() - r,
    {
        let cleaned = strip_rules(&raw[r]);
        if !is_blank(&cleaned) {
            let parts = split_top_level(&cleaned, '&');
            let mut cells: Vec<TableCell> = Vec::new();
            let mut k: usize = 0;
            while k < parts.len()
                invariant
                    k <= parts.len(),
                decreases parts.len() - k,
            {
                cells.push(parse_table_cell(&trim(&parts[k])));
                k += 1;
            }
            if cells.len() > 0 {
                parsed.push(cells);
            }
        }
        r += 1;
    }
    let headers = if parsed.len() == 0 {
        Vec::new()
    } else {
        parsed.remove(0)
    };
    Block::Table { headers, alignments, rows: parsed }
}

fn parse_raw_environment(cur: &mut LineCursor, env: &Vec<char>) -> (b: Block)
    requires
        old(cur).wf(),
        old(cur).pos < old(cur).lines.len(),
    ensures
        final(cur).moved_from(old(cur)),
        final(cur).pos > old(cur).pos,
{
    let mut content = cur.line();
    let body = collect_body(cur, env);
    if body.len() > 0 {
        content.push('\n');
        push_all(&mut content, &body);
    }
    push_str(&mut content, "\n\\end{");
    push_all(&mut content, env);
    content.push('}');
    Block::RawBlock { format: Some(string_of(&chars_of("latex"))), content: string_of(&content) }
}

fn parse_paragraph(cur: &mut LineCursor) -> (b: Block)
    requires
        old(cur).wf(),
    ensures
        final(cur).moved_from(old(cur)),
        old(cur).pos + 1 == old(cur).lines@.len() && plain_line(old(cur).lines@[old(cur).pos as int]@)
            ==> final(cur).pos == old(cur).lines@.len(),
        old(cur).pos + 1 == old(cur).lines@.len() && plain_line(old(cur).lines@[old(cur).pos as int]@)
            ==> (b matches Block::Paragraph { content } && reads_as_plain_text(content@, old(cur).lines@[old(cur).pos as int]@)),
{
    let ghost single = old(cur).pos + 1 == old(cur).lines@.len() && plain_line(old(cur).lines@[old(cur).pos as int]@);
    let ghost l0 = if old(cur).pos < old(cur).lines@.len() {
        old(cur).lines@[old(cur).pos as int]@
    } else {
        Seq::<char>::empty()
    };
    let mut ls: Vec<Vec<char>> = Vec::new();
    while !cur.at_end()
        invariant
            cur.moved_from(old(cur)),
            single == (old(cur).pos + 1 == old(cur).lines@.len() && plain_line(old(cur).lines@[old(cur).pos as int]@)),
            single ==> l0 == old(cur).lines@[old(cur).pos as int]@,
            single ==> (cur.pos == old(cur).pos && ls@.len() == 0) || (cur.pos == old(cur).pos + 1 && views(ls@) == seq![l0]),
        ensures
            single ==> cur.pos == old(cur).pos + 1 && views(ls@) == seq![l0],
        decreases cur.lines.len() - cur.pos,
    {
        proof {
            if single {
                lemma_plain_line(l0);
            }
        }
        let t = trim(&strip_comment(&cur.lines[cur.pos]));
        if t.len() == 0 {
            break;
        }
        if ls.len() > 0 && is_block_start(&t) {
            break;
        }
        if is_ignored_command(&t) {
            if ls.len() == 0 {
                cur.pos += 1;
                continue;
            }
            break;
        }
        let ghost ls0 = ls@;
        ls.push(t);
        proof {
            if single {
                assert(views(ls@) =~= views(ls0).push(l0));
            }
        }
        cur.pos += 1;
    }
    let mut joined: Vec<char> = Vec::new();
    let mut k: usize = 0;
    while k < ls.len()
        invariant
            k <= ls.len(),
            single ==> views(ls@) == seq![l0],
            single && k == 0 ==> joined@.len() == 0,
            single && k == 1 ==> joined@ == l0,
        decreases ls.len() - k,
    {
        proof {
            if single {
                assert(views(ls@)[k as int] == ls@[k as int]@);
            }
        }
        if k > 0 && !ends_with_lit(&joined, "\\\\") {
            joined.push(' ');
        }
        push_all(&mut joined, &ls[k]);
        k += 1;
    }
    proof {
        if single {
            assert(joined@ =~= l0);
            lemma_plain_line(l0);
        }
    }
    Block::Paragraph { content: latex_inlines(&joined) }
}

// ---------------------------------------------------------------------------
// Inline parsing
// ---------------------------------------------------------------------------

/// Appends `inl`, joining it to a text that ends `result` if it is a text.
fn push_model(result: &mut Vec<Inline>, inl: Inline)
    requires
        no_adjacent_text(old(result)@),
    ensures
        no_adjacent_text(final(result)@),
        inlines_model(final(result)@) == merge_push(inlines_model(old(result)@), inline_model(inl)),
        !joins_text(old(result)@, inl) ==> final(result)@ == old(result)@.push(inl),
{
    let ghost before = result@;
    let ghost x = inl;
    push_merged(result, inl);
    proof {
        lemma_push_merged_model(before, result@, x);
    }
}

fn flush_text(result: &mut Vec<Inline>, text: &mut Vec<char>)
    requires
        no_adjacent_text(old(result)@),
    ensures
        no_adjacent_text(final(result)@),
        final(text)@.len() == 0,
        inlines_model(final(result)@) == flush_model(inlines_model(old(result)@), old(text)@),
        old(text)@.len() == 0 ==> final(result)@ == old(result)@,
        old(text)@.len() > 0 && old(result)@.len() == 0 ==> final(result)@.len() == 1
            && final(result)@[0] is Text && text_of_inline(final(result)@[0]) == old(text)@,
{
    if text.len() > 0 {
        let ghost before = result@;
        let x = Inline::Text(string_of(text));
        assert(inline_model(x) == InlineModel::Text(text@));
        push_merged(result, x);
        proof {
            lemma_push_merged_model(before, result@, x);
        }
    }
    *text = Vec::new();
}

/// The character that an escaping command such as `\#` stands for.
fn escaped_literal(command: &Vec<char>) -> (r: Option<char>)
    ensures
        r == escaped_char_of(command@),
{
    if command.len() != 1 {
        return None;
    }
    let c = command[0];
    if c == '#' || c == '$' || c == '%' || c == '&' || c == '_' || c == '{' || c == '}' || c == '~'
        || c == '^' {
        Some(c)
    } else {
        None
    }
}

/// The text that a LaTeX fragment stands for: its text, code and raw parts.
/// The characters of the text, code and raw inlines of `s`, in order.
pub open spec fn literal_text(s: Seq<Inline>) -> Seq<char>
    decreases s.len(),
{
    if s.len() == 0 {
        seq![]
    } else {
        literal_text(s.drop_last()) + match s.last() {
            Inline::Text(t) => t@,
            Inline::InlineCode(t) => t@,
            Inline::RawInline { content, .. } => content@,
            _ => seq![],
        }
    }
}

/// The literal text of inlines is that of their values.
proof fn lemma_literal_text_model(s: Seq<Inline>)
    ensures
        literal_text(s) == literal_text_model(inlines_model(s)),
    decreases s.len(),
{
    if s.len() > 0 {
        lemma_literal_text_model(s.drop_last());
        let m = inlines_model(s);
        assert(m.drop_last() =~= inlines_model(s.drop_last()));
        assert(m.last() == inline_model(s.last()));
    }
}

pub(crate) fn unescape_latex(input: &Vec<char>) -> (r: Vec<char>)
    ensures
        plain_latex(input@) ==> r@ == input@,
        r@ == unescaped(input@),
    decreases input@.len(), 4nat,
{
    let inlines = latex_inlines(input);
    let mut r: Vec<char> = Vec::new();
    let mut k: usize = 0;
    while k < inlines.len()
        invariant
            k <= inlines.len(),
            r@ == literal_text(inlines@.subrange(0, k as int)),
        decreases inlines.len() - k,
    {
        assert(inlines@.subrange(0, k + 1).drop_last() =~= inlines@.subrange(0, k as int));
        match &inlines[k] {
            Inline::Text(t) => push_string(&mut r, t),
            Inline::InlineCode(t) => push_string(&mut r, t),
            Inline::RawInline { content, .. } => push_string(&mut r, content),
            _ => {},
        }
        k += 1;
    }
    assert(inlines@.subrange(0, k as int) =~= inlines@);
    proof {
        lemma_literal_text_model(inlines@);
        if plain_latex(input@) && inlines@.len() == 1 {
            assert(inlines@.drop_last() =~= seq![]);
            assert(literal_text(inlines@.drop_last()) =~= seq![]);
            assert(inlines@.last() == inlines@[0]);
            assert(literal_text(inlines@) =~= text_of_inline(inlines@[0]));
        }
        if plain_latex(input@) && inlines@.len() == 0 {
            assert(literal_text(inlines@) =~= seq![]);
        }
    }
    r
}

/// The inline kind of a formatting command: 1 bold, 2 italic, 3 code,
/// 4 strikethrough, 5 superscript, 6 subscript.
fn inline_kind(command: &Vec<char>) -> (k: u8)
    ensures
        k == kind_of(command@),
{
    if eq_lit(command, "textbf") || eq_lit(command, "bf") {
        1
    } else if eq_lit(command, "textit") || eq_lit(command, "emph") || eq_lit(command, "em") {
        2
    } else if eq_lit(command, "texttt") {
        3
    } else if eq_lit(command, "sout") || eq_lit(command, "st") {
        4
    } else if eq_lit(command, "textsuperscript") {
        5
    } else if eq_lit(command, "textsubscript") {
        6
    } else {
        0
    }
}

fn latex_raw(content: Vec<char>) -> (r: Inline)
    ensures
        inline_model(r) == latex_raw_model(content@),
{
    Inline::RawInline { format: Some(string_of(&chars_of("latex"))), content: string_of(&content) }
}

/// Bold (or italic) content that is exactly one italic (or bold) element
/// becomes bold-italic.
fn emphasis(parsed: Vec<Inline>, bold: bool) -> (r: Inline)
    ensures
        emphasis_of(parsed@, bold, r),
        inline_model(r) == emphasis_model(inlines_model(parsed@), bold),
{
    let ghost p0 = parsed@;
    let r = emphasis_inner(parsed, bold);
    proof {
        lemma_emphasis_model(p0, bold, r);
    }
    r
}

fn emphasis_inner(mut parsed: Vec<Inline>, bold: bool) -> (r: Inline)
    ensures
        emphasis_of(parsed@, bold, r),
{
    let ghost p0 = parsed@;
    if parsed.len() == 1 {
        let only = parsed.pop().unwrap();
        match only {
            Inline::Italic(inner) if bold => return Inline::BoldItalic(inner),
            Inline::Bold(inner) if !bold => return Inline::BoldItalic(inner),
            other => {
                parsed.push(other);
                assert(parsed@ =~= p0);
            },
        }
    }
    if bold {
        Inline::Bold(parsed)
    } else {
        Inline::Italic(parsed)
    }
}


/// The first index at or after `j` where `needle` stands unescaped.
pub open spec fn first_unescaped(s: Seq<char>, j: int, needle: char) -> Option<int>
    decreases s.len() - j,
{
    if j < 0 || j >= s.len() {
        None
    } else if s[j] == needle && backslashes_before(s, j) % 2 != 1 {
        Some(j)
    } else {
        first_unescaped(s, j + 1, needle)
    }
}

/// The first index at or after `i` where `c` stands.
pub open spec fn char_from(s: Seq<char>, i: int, c: char) -> Option<int>
    decreases s.len() - i,
{
    if i < 0 || i >= s.len() {
        None
    } else if s[i] == c {
        Some(i)
    } else {
        char_from(s, i + 1, c)
    }
}

/// The character that an escaping command such as `\#` stands for.
pub open spec fn escaped_char_of(command: Seq<char>) -> Option<char> {
    if command.len() == 1 && (command[0] == '#' || command[0] == '$' || command[0] == '%' || command[0]
        == '&' || command[0] == '_' || command[0] == '{' || command[0] == '}' || command[0] == '~'
        || command[0] == '^') {
        Some(command[0])
    } else {
        None
    }
}

/// The kind of a formatting command: 1 bold, 2 italic, 3 code,
/// 4 strikethrough, 5 superscript, 6 subscript, 0 none.
pub open spec fn kind_of(command: Seq<char>) -> u8 {
    if command == "textbf"@ || command == "bf"@ {
        1
    } else if command == "textit"@ || command == "emph"@ || command == "em"@ {
        2
    } else if command == "texttt"@ {
        3
    } else if command == "sout"@ || command == "st"@ {
        4
    } else if command == "textsuperscript"@ {
        5
    } else if command == "textsubscript"@ {
        6
    } else {
        0
    }
}

/// The text of a group that was read, or nothing.
pub open spec fn group_text(o: Option<(Seq<char>, int)>) -> Seq<char> {
    match o {
        Some((g, _)) => g,
        None => seq![],
    }
}

/// The index after a group that was read, or 0.
pub open spec fn group_end(o: Option<(Seq<char>, int)>) -> int {
    match o {
        Some((_, e)) => e,
        None => 0,
    }
}

/// Raw LaTeX holding `content`.
pub open spec fn latex_raw_model(content: Seq<char>) -> InlineModel {
    InlineModel::RawInline { format: Some("latex"@), content }
}

/// The end of the brace and bracket groups that follow an unknown command,
/// whitespace between them skipped, from `e` on.
pub open spec fn raw_end(s: Seq<char>, e: int) -> int
    decreases s.len() - e,
{
    let e2 = ws_end(s, e);
    if e2 < 0 || e2 >= s.len() {
        e2
    } else {
        let p = if s[e2] == '{' {
            delimited_at(s, e2, '{', '}')
        } else if s[e2] == '[' {
            delimited_at(s, e2, '[', ']')
        } else {
            None
        };
        match p {
            Some((_, nx)) => if e < nx <= s.len() {
                raw_end(s, nx)
            } else {
                e2
            },
            None => e2,
        }
    }
}

/// The characters of the text, code and raw values of `s`, in order.
pub open spec fn literal_text_model(s: Seq<InlineModel>) -> Seq<char>
    decreases s.len(),
{
    if s.len() == 0 {
        seq![]
    } else {
        literal_text_model(s.drop_last()) + match s.last() {
            InlineModel::Text(t) => t,
            InlineModel::InlineCode(t) => t,
            InlineModel::RawInline { content, .. } => content,
            _ => seq![],
        }
    }
}

/// The text that a LaTeX fragment stands for: the text, code and raw parts
/// of its reading.
pub open spec fn unescaped(x: Seq<char>) -> Seq<char>
    decreases x.len(), 2int, 0int,
{
    literal_text_model(latex_inline_model(x))
}

/// What LaTeX inline markup `s` reads as.
pub open spec fn latex_inline_model(s: Seq<char>) -> Seq<InlineModel>
    decreases s.len(), 1int, 0int,
{
    latex_scan(s, 0, seq![], seq![])
}

/// The reading from index `i` on, with the values read so far `res` and the
/// text not yet added `text`.
pub open spec fn latex_scan(s: Seq<char>, i: int, res: Seq<InlineModel>, text: Seq<char>) -> Seq<InlineModel>
    decreases s.len(), 0int, s.len() - i + 2,
{
    if i < 0 || i >= s.len() {
        flush_model(res, text)
    } else {
        let st = latex_step(s, i, res, text);
        if i < st.0 <= s.len() {
            latex_scan(s, st.0, st.1, st.2)
        } else {
            flush_model(res, text)
        }
    }
}

/// One step of the reading at `i`: the index after it, the values read and
/// the pending text.
pub open spec fn latex_step(s: Seq<char>, i: int, res: Seq<InlineModel>, text: Seq<char>) -> (int, Seq<InlineModel>, Seq<char>)
    decreases s.len(), 0int, 1int,
{
    let n = s.len() as int;
    let c = s[i];
    let dollar = if c == '$' {
        first_unescaped(s.subrange(i + 1, n), 0, '$')
    } else {
        None
    };
    if c == '\\' && i + 1 < n && s[i + 1] == '\\' {
        (i + 2, merge_push(flush_model(res, text), InlineModel::HardLineBreak), seq![])
    } else if dollar is Some {
        let after = i + 1 + dollar->0 + 1;
        let end = if after < n { after + 1 } else { n };
        (end, merge_push(flush_model(res, text), latex_raw_model(s.subrange(i, end))), seq![])
    } else if c == '~' {
        (i + 1, res, text.push(' '))
    } else if c != '\\' {
        (i + 1, res, text.push(c))
    } else {
        match command_at(s, i) {
            None => (i + 1, res, text.push('\\')),
            Some((cmd, ce)) => {
                if escaped_char_of(cmd) is Some {
                    (ce, res, text.push(escaped_char_of(cmd)->0))
                } else if cmd == "textbackslash"@ || cmd == "textasciicircum"@ || cmd == "textasciitilde"@ {
                    let o = ws_end(s, ce);
                    let off = match delimited_at(s, o, '{', '}') {
                        Some((_, e)) => e,
                        None => o,
                    };
                    let ch = if cmd == "textbackslash"@ {
                        '\\'
                    } else if cmd == "textasciicircum"@ {
                        '^'
                    } else {
                        '~'
                    };
                    (off, res, text.push(ch))
                } else if cmd == "verb"@ && ce >= n {
                    (ce, res, text)
                } else if cmd == "verb"@ && char_from(s, ce + 1, s[ce]) is Some {
                    let close = char_from(s, ce + 1, s[ce])->0;
                    (
                        close + 1,
                        merge_push(flush_model(res, text), InlineModel::InlineCode(s.subrange(ce + 1, close))),
                        seq![],
                    )
                } else {
                    latex_command_step(s, i, cmd, ce, res, text)
                }
            },
        }
    }
}

/// Where the URL group of `\includegraphics` starts: after the command's
/// whitespace and an optional `[…]` with the whitespace after it.
pub open spec fn image_group_start(s: Seq<char>, ce: int) -> int {
    let off = ws_end(s, ce);
    if off < s.len() && s[off] == '[' {
        match delimited_at(s, off, '[', ']') {
            Some((_, e)) => ws_end(s, e),
            None => off,
        }
    } else {
        off
    }
}

/// The URL group of an `\includegraphics` command.
pub open spec fn image_group(s: Seq<char>, cmd: Seq<char>, ce: int) -> Option<(Seq<char>, int)> {
    if cmd == "includegraphics"@ { delimited_at(s, image_group_start(s, ce), '{', '}') } else { None }
}

/// The URL group of an `\href` command.
pub open spec fn href_url(s: Seq<char>, cmd: Seq<char>, ce: int) -> Option<(Seq<char>, int)> {
    if cmd == "href"@ { delimited_at(s, ws_end(s, ce), '{', '}') } else { None }
}

/// The text group of an `\href` command.
pub open spec fn href_label(s: Seq<char>, cmd: Seq<char>, ce: int) -> Option<(Seq<char>, int)> {
    match href_url(s, cmd, ce) {
        Some((_, au)) => delimited_at(s, ws_end(s, au), '{', '}'),
        None => None,
    }
}

/// The group of a `\url` command.
pub open spec fn url_group(s: Seq<char>, cmd: Seq<char>, ce: int) -> Option<(Seq<char>, int)> {
    if cmd == "url"@ { delimited_at(s, ws_end(s, ce), '{', '}') } else { None }
}

/// The content group of a formatting command.
pub open spec fn kind_group(s: Seq<char>, cmd: Seq<char>, ce: int) -> Option<(Seq<char>, int)> {
    if kind_of(cmd) != 0 { delimited_at(s, ws_end(s, ce), '{', '}') } else { None }
}

/// A group that was read and is shorter than the text it was read from.
pub open spec fn read_group(o: Option<(Seq<char>, int)>, s: Seq<char>) -> bool {
    o is Some && group_text(o).len() < s.len()
}

/// The inline that formatting kind `k` makes of its group `content`.
pub open spec fn kind_model(k: u8, content: Seq<char>) -> InlineModel
    decreases content.len(), 3int, 0int,
{
    if k == 3 {
        InlineModel::InlineCode(unescaped(content))
    } else {
        let p = latex_inline_model(content);
        if k == 1 {
            emphasis_model(p, true)
        } else if k == 2 {
            emphasis_model(p, false)
        } else if k == 4 {
            InlineModel::Strikethrough(p)
        } else if k == 5 {
            InlineModel::Superscript(p)
        } else {
            InlineModel::Subscript(p)
        }
    }
}

/// The step for a command that is no escape and no `\verb`: an image, a
/// link, a formatting command, or else raw LaTeX with its groups.
pub open spec fn latex_command_step(
    s: Seq<char>,
    i: int,
    cmd: Seq<char>,
    ce: int,
    res: Seq<InlineModel>,
    text: Seq<char>,
) -> (int, Seq<InlineModel>, Seq<char>)
    decreases s.len(), 0int, 0int,
{
    let fl = flush_model(res, text);
    let img = image_group(s, cmd, ce);
    let h1 = href_url(s, cmd, ce);
    let h2 = href_label(s, cmd, ce);
    let u1 = url_group(s, cmd, ce);
    let g = kind_group(s, cmd, ce);
    let k = kind_of(cmd);
    if read_group(img, s) {
        (
            group_end(img),
            merge_push(
                fl,
                InlineModel::Image { url: unescaped(group_text(img)), alt: seq![], title: None, link: None },
            ),
            seq![],
        )
    } else if read_group(h1, s) && read_group(h2, s) {
        (
            group_end(h2),
            merge_push(
                fl,
                InlineModel::Link {
                    url: unescaped(group_text(h1)),
                    text: latex_inline_model(group_text(h2)),
                    title: None,
                },
            ),
            seq![],
        )
    } else if read_group(u1, s) {
        let u = unescaped(group_text(u1));
        (group_end(u1), merge_push(fl, InlineModel::Link { url: u, text: seq![InlineModel::Text(u)], title: None }), seq![])
    } else if read_group(g, s) {
        (group_end(g), merge_push(fl, kind_model(k, group_text(g))), seq![])
    } else {
        let e = raw_end(s, ws_end(s, ce));
        (e, merge_push(fl, latex_raw_model(s.subrange(i, e))), seq![])
    }
}

/// A character that can start LaTeX inline markup: `\\`, `$` or `~`.
pub open spec fn latex_markup_char(c: char) -> bool {
    c == '\\' || c == '$' || c == '~'
}

/// Text in which no character can start inline markup.
pub open spec fn plain_latex(s: Seq<char>) -> bool {
    forall|i: int| 0 <= i < s.len() ==> !latex_markup_char(#[trigger] s[i])
}

/// `char_from` names the first occurrence at or after `i`.
proof fn lemma_char_from(s: Seq<char>, i: int, c: char)
    requires
        0 <= i,
    ensures
        match char_from(s, i, c) {
            Some(k) => i <= k < s.len() && s[k] == c && forall|j: int| i <= j < k ==> s[j] != c,
            None => forall|j: int| i <= j < s.len() ==> s[j] != c,
        },
    decreases s.len() - i,
{
    if i < s.len() && s[i] != c {
        lemma_char_from(s, i + 1, c);
    }
}

/// One step of the reading moves the reading on.
pub(crate) proof fn lemma_scan_step(s: Seq<char>, i: int, res: Seq<InlineModel>, text: Seq<char>, j: int, res2: Seq<InlineModel>, text2: Seq<char>)
    requires
        0 <= i < s.len(),
        latex_step(s, i, res, text) == (j, res2, text2),
        i < j <= s.len(),
    ensures
        latex_scan(s, i, res, text) == latex_scan(s, j, res2, text2),
{
}

/// Parses LaTeX inline markup; adjacent text runs are merged. Text without
/// markup characters is read as one text inline.
pub(crate) fn latex_inlines(input: &Vec<char>) -> (r: Vec<Inline>)
    ensures
        no_adjacent_text(r@),
        plain_latex(input@) ==> if input@.len() == 0 {
            r@.len() == 0
        } else {
            r@.len() == 1 && r@[0] is Text && text_of_inline(r@[0]) == input@
        },
        inlines_model(r@) == latex_inline_model(input@),
    decreases input@.len(), 3nat,
{
    let n = input.len();
    let ghost s = input@;
    let mut result: Vec<Inline> = Vec::new();
    let mut text: Vec<char> = Vec::new();
    let mut index: usize = 0;
    assert(inlines_model(result@) =~= seq![]);
    while index < n
        invariant
            n == input@.len(),
            s == input@,
            index <= n,
            no_adjacent_text(result@),
            plain_latex(input@) ==> result@.len() == 0 && text@ == input@.subrange(0, index as int),
            latex_scan(s, index as int, inlines_model(result@), text@) == latex_inline_model(s),
        decreases n - index,
    {
        let ghost i0 = index as int;
        let ghost r0 = inlines_model(result@);
        let ghost t0 = text@;
        let c = input[index];
        if c == '\\' && index + 1 < n && input[index + 1] == '\\' {
            flush_text(&mut result, &mut text);
            push_model(&mut result, Inline::HardLineBreak);
            index += 2;
            proof {
                assert(text@ =~= seq![]);
                lemma_scan_step(s, i0, r0, t0, index as int, inlines_model(result@), text@);
            }
            continue;
        }
        if c == '$' {
            let rest = skip(input, index + 1);
            if let Some(rel) = find_unescaped(&rest, '$') {
                flush_text(&mut result, &mut text);
                let after = index + 1 + rel + 1;
                let end = if after < n {
                    after + 1
                } else {
                    n
                };
                push_model(&mut result, latex_raw(substring(input, index, end)));
                index = end;
                proof {
                    assert(text@ =~= seq![]);
                    lemma_scan_step(s, i0, r0, t0, index as int, inlines_model(result@), text@);
                }
                continue;
            }
        }
        if c == '~' {
            text.push(' ');
            index += 1;
            proof {
                lemma_scan_step(s, i0, r0, t0, index as int, inlines_model(result@), text@);
            }
            continue;
        }
        if c != '\\' {
            text.push(c);
            assert(plain_latex(input@) ==> text@ =~= input@.subrange(0, index + 1));
            index += 1;
            proof {
                lemma_scan_step(s, i0, r0, t0, index as int, inlines_model(result@), text@);
            }
            continue;
        }
        let (command, cmd_end) = match parse_command(input, index) {
            Some(x) => x,
            None => {
                text.push('\\');
                index += 1;
                proof {
                    lemma_scan_step(s, i0, r0, t0, index as int, inlines_model(result@), text@);
                }
                continue;
            },
        };
        assert(command_at(s, i0) == Some((command@, cmd_end as int)));
        if let Some(lit) = escaped_literal(&command) {
            text.push(lit);
            index = cmd_end;
            proof {
                lemma_scan_step(s, i0, r0, t0, index as int, inlines_model(result@), text@);
            }
            continue;
        }
        if eq_lit(&command, "textbackslash") || eq_lit(&command, "textasciicircum") || eq_lit(
            &command,
            "textasciitilde",
        ) {
            let mut offset = skip_ws(input, cmd_end);
            if let Some((_, end)) = extract_group(input, offset) {
                offset = end;
            }
            text.push(
                if eq_lit(&command, "textbackslash") {
                    '\\'
                } else if eq_lit(&command, "textasciicircum") {
                    '^'
                } else {
                    '~'
                },
            );
            index = offset;
            proof {
                lemma_scan_step(s, i0, r0, t0, index as int, inlines_model(result@), text@);
            }
            continue;
        }
        if eq_lit(&command, "verb") {
            if cmd_end >= n {
                index = cmd_end;
                proof {
                    lemma_scan_step(s, i0, r0, t0, index as int, inlines_model(result@), text@);
                }
                continue;
            }
            let delim = input[cmd_end];
            let content_start = cmd_end + 1;
            proof {
                lemma_char_from(s, content_start as int, delim);
            }
            if let Some(close) = find_char_from(input, delim, content_start) {
                assert(char_from(s, content_start as int, delim) == Some(close as int));
                flush_text(&mut result, &mut text);
                let code = Inline::InlineCode(string_of(&substring(input, content_start, close)));
                push_model(&mut result, code);
                index = close + 1;
                proof {
                    assert(text@ =~= seq![]);
                    lemma_scan_step(s, i0, r0, t0, index as int, inlines_model(result@), text@);
                }
                continue;
            }
            assert(char_from(s, content_start as int, delim) is None);
        }
        let step = command_step(input, index, &command, cmd_end, &mut result, &mut text);
        proof {
            lemma_scan_step(s, i0, r0, t0, step as int, inlines_model(result@), text@);
        }
        index = step;
    }
    assert(plain_latex(input@) ==> text@ =~= input@);
    flush_text(&mut result, &mut text);
    result
}

/// The image of an `\includegraphics` command, if it has its URL group;
/// returns the index after it.
#[verifier::rlimit(100)]
fn image_step(input: &Vec<char>, command: &Vec<char>, cmd_end: usize, result: &mut Vec<Inline>, text: &mut Vec<char>) -> (r: Option<usize>)
    requires
        no_adjacent_text(old(result)@),
        cmd_end <= input@.len(),
    ensures
        no_adjacent_text(final(result)@),
        (r is Some) == read_group(image_group(input@, command@, cmd_end as int), input@),
        r matches Some(e) ==> e == group_end(image_group(input@, command@, cmd_end as int)) && e <= input@.len()
            && e > cmd_end && final(text)@ == Seq::<char>::empty() && inlines_model(final(result)@) == merge_push(
            flush_model(inlines_model(old(result)@), old(text)@),
            InlineModel::Image {
                url: unescaped(group_text(image_group(input@, command@, cmd_end as int))),
                alt: seq![],
                title: None,
                link: None,
            },
        ),
        r is None ==> final(result)@ == old(result)@ && final(text)@ == old(text)@,
    decreases input@.len(), 1nat,
{
    let n = input.len();
    if !eq_lit(command, "includegraphics") {
        return None;
    }
    let offset = skip_ws(input, cmd_end);
    let mut o = offset;
    if o < n && input[o] == '[' {
        if let Some((_, end)) = extract_delimited(input, o, '[', ']') {
            o = skip_ws(input, end);
        }
    }
    assert(o == image_group_start(input@, cmd_end as int));
    if let Some((url, end)) = extract_group(input, o) {
        flush_text(result, text);
        let u = unescape_latex(&url);
        let img = Inline::Image { url: string_of(&u), alt: Vec::new(), title: None, link: None };
        assert(inlines_model(Seq::<Inline>::empty()) =~= seq![]);
        push_model(result, img);
        assert(text@ =~= seq![]);
        return Some(end);
    }
    None
}

/// The link of an `\href` command, if it has both groups; returns the index
/// after it.
#[verifier::rlimit(100)]
fn href_step(input: &Vec<char>, command: &Vec<char>, cmd_end: usize, result: &mut Vec<Inline>, text: &mut Vec<char>) -> (r: Option<usize>)
    requires
        no_adjacent_text(old(result)@),
        cmd_end <= input@.len(),
    ensures
        no_adjacent_text(final(result)@),
        (r is Some) == (read_group(href_url(input@, command@, cmd_end as int), input@) && read_group(
            href_label(input@, command@, cmd_end as int),
            input@,
        )),
        r matches Some(e) ==> e == group_end(href_label(input@, command@, cmd_end as int)) && e <= input@.len()
            && e > cmd_end && final(text)@ == Seq::<char>::empty() && inlines_model(final(result)@) == merge_push(
            flush_model(inlines_model(old(result)@), old(text)@),
            InlineModel::Link {
                url: unescaped(group_text(href_url(input@, command@, cmd_end as int))),
                text: latex_inline_model(group_text(href_label(input@, command@, cmd_end as int))),
                title: None,
            },
        ),
        r is None ==> final(result)@ == old(result)@ && final(text)@ == old(text)@,
    decreases input@.len(), 1nat,
{
    if !eq_lit(command, "href") {
        return None;
    }
    let offset = skip_ws(input, cmd_end);
    if let Some((url, after_url)) = extract_group(input, offset) {
        if let Some((label, end)) = extract_group(input, skip_ws(input, after_url)) {
            flush_text(result, text);
            let u = unescape_latex(&url);
            let inner = latex_inlines(&label);
            let link = Inline::Link { url: string_of(&u), text: inner, title: None };
            push_model(result, link);
            assert(text@ =~= seq![]);
            return Some(end);
        }
    }
    None
}

/// The link of a `\url` command, if it has its group; returns the index
/// after it.
#[verifier::rlimit(100)]
fn url_step(input: &Vec<char>, command: &Vec<char>, cmd_end: usize, result: &mut Vec<Inline>, text: &mut Vec<char>) -> (r: Option<usize>)
    requires
        no_adjacent_text(old(result)@),
        cmd_end <= input@.len(),
    ensures
        no_adjacent_text(final(result)@),
        (r is Some) == read_group(url_group(input@, command@, cmd_end as int), input@),
        r matches Some(e) ==> e == group_end(url_group(input@, command@, cmd_end as int)) && e <= input@.len()
            && e > cmd_end && final(text)@ == Seq::<char>::empty() && inlines_model(final(result)@) == merge_push(
            flush_model(inlines_model(old(result)@), old(text)@),
            InlineModel::Link {
                url: unescaped(group_text(url_group(input@, command@, cmd_end as int))),
                text: seq![InlineModel::Text(unescaped(group_text(url_group(input@, command@, cmd_end as int))))],
                title: None,
            },
        ),
        r is None ==> final(result)@ == old(result)@ && final(text)@ == old(text)@,
    decreases input@.len(), 1nat,
{
    if !eq_lit(command, "url") {
        return None;
    }
    let offset = skip_ws(input, cmd_end);
    if let Some((url, end)) = extract_group(input, offset) {
        let u = unescape_latex(&url);
        flush_text(result, text);
        let mut t: Vec<Inline> = Vec::new();
        t.push(Inline::Text(string_of(&u)));
        proof {
            lemma_inlines_model_push(seq![], t@[0]);
            assert(t@ =~= seq![].push(t@[0]));
            assert(inlines_model(Seq::<Inline>::empty()) =~= seq![]);
            assert(inline_model(t@[0]) == InlineModel::Text(u@));
            assert(inlines_model(t@) =~= seq![InlineModel::Text(u@)]);
        }
        push_model(result, Inline::Link { url: string_of(&u), text: t, title: None });
        assert(text@ =~= seq![]);
        return Some(end);
    }
    None
}

/// The inline of a formatting command, if it has its group; returns the
/// index after it.
#[verifier::rlimit(100)]
fn kind_step(input: &Vec<char>, command: &Vec<char>, cmd_end: usize, result: &mut Vec<Inline>, text: &mut Vec<char>) -> (r: Option<usize>)
    requires
        no_adjacent_text(old(result)@),
        cmd_end <= input@.len(),
    ensures
        no_adjacent_text(final(result)@),
        (r is Some) == read_group(kind_group(input@, command@, cmd_end as int), input@),
        r matches Some(e) ==> e == group_end(kind_group(input@, command@, cmd_end as int)) && e <= input@.len()
            && e > cmd_end && final(text)@ == Seq::<char>::empty() && inlines_model(final(result)@) == merge_push(
            flush_model(inlines_model(old(result)@), old(text)@),
            kind_model(kind_of(command@), group_text(kind_group(input@, command@, cmd_end as int))),
        ),
        r is None ==> final(result)@ == old(result)@ && final(text)@ == old(text)@,
    decreases input@.len(), 1nat,
{
    let kind = inline_kind(command);
    if kind == 0 {
        return None;
    }
    let offset = skip_ws(input, cmd_end);
    if let Some((content, end)) = extract_group(input, offset) {
        flush_text(result, text);
        let inl = if kind == 3 {
            Inline::InlineCode(string_of(&unescape_latex(&content)))
        } else {
            let parsed = latex_inlines(&content);
            if kind == 1 {
                emphasis(parsed, true)
            } else if kind == 2 {
                emphasis(parsed, false)
            } else if kind == 4 {
                Inline::Strikethrough(parsed)
            } else if kind == 5 {
                Inline::Superscript(parsed)
            } else {
                Inline::Subscript(parsed)
            }
        };
        push_model(result, inl);
        assert(text@ =~= seq![]);
        return Some(end);
    }
    None
}

/// The step for a command that is no escape and no `\verb`; returns the
/// index after it.
fn command_step(
    input: &Vec<char>,
    index: usize,
    command: &Vec<char>,
    cmd_end: usize,
    result: &mut Vec<Inline>,
    text: &mut Vec<char>,
) -> (next: usize)
    requires
        index < cmd_end <= input@.len(),
        no_adjacent_text(old(result)@),
    ensures
        no_adjacent_text(final(result)@),
        latex_command_step(input@, index as int, command@, cmd_end as int, inlines_model(old(result)@), old(text)@)
            == (next as int, inlines_model(final(result)@), final(text)@),
        index < next <= input@.len(),
    decreases input@.len(), 2nat,
{
    let n = input.len();
    let ghost s = input@;
    let ghost r0 = inlines_model(result@);
    let ghost t0 = text@;
    if let Some(e) = image_step(input, command, cmd_end, result, text) {
        return e;
    }
    if let Some(e) = href_step(input, command, cmd_end, result, text) {
        return e;
    }
    if let Some(e) = url_step(input, command, cmd_end, result, text) {
        return e;
    }
    if let Some(e) = kind_step(input, command, cmd_end, result, text) {
        return e;
    }
    let offset = skip_ws(input, cmd_end);
    let mut end = offset;
    loop
        invariant_except_break
            raw_end(s, offset as int) == raw_end(s, end as int),
        invariant
            cmd_end <= end <= n,
            n == input@.len(),
            s == input@,
        ensures
            cmd_end <= end <= n,
            raw_end(s, offset as int) == end,
        decreases n - end,
    {
        let e0 = end;
        end = skip_ws(input, end);
        if end >= n {
            break;
        }
        let parsed = if input[end] == '{' {
            extract_group(input, end)
        } else if input[end] == '[' {
            extract_delimited(input, end, '[', ']')
        } else {
            None
        };
        match parsed {
            Some((_, next)) => {
                assert(raw_end(s, e0 as int) == raw_end(s, next as int));
                end = next;
            },
            None => break,
        }
    }
    flush_text(result, text);
    push_model(result, latex_raw(substring(input, index, end)));
    assert(text@ =~= seq![]);
    end
}

} // verus!
