//! reStructuredText reader.
use vstd::prelude::*;

use crate::ast::{Block, Document, Inline, ListItem, TableCell};
use crate::error::ParseError;
use crate::format::Parser;
use crate::formats::common::{has_mark, plain_char, plain_line, one_plain_line, line_body, plain_paragraph, reads_as_plain_text, reads_as_plain_paragraph, lemma_prefix_mark, lemma_prefix_head, lemma_plain_line_text, joins_text, text_of_inline, error_is, without_trailing_empty, is_code_block, is_raw_block, LineCursor, bool_grid, continue_last_item, default_alignments, grid_get, no_adjacent_text, paragraph_item, push_merged, push_to_last_item, until_char, until_str};
use crate::text::{is_ws_spec, index_of_char, lemma_index_of_char, lines_spec, trim_end_spec, all_eq_spec, all_digits, occurs_at, utf8_len, all_ws, has_prefix, join_spec, trim_spec, trim_start_spec, views, all_eq, byte_len, chars_of, contains_char, copy, eq_lit, find_lit, first_is, is_all_digits, is_blank, join, last_is, lines, parse_unsigned, repeat, rfind, skip, starts_with_lit, string_of, strip_prefix_lit, substring, trim, trim_end, trim_start, trim_start_index};

verus! {

pub struct RstParser;

impl Parser for RstParser {
    fn parse(&self, input: &str) -> (r: Result<Document, ParseError>)
        ensures
            r matches Err(e) ==> error_is(e, stall_detail()),
            input@.len() == 0 ==> (r matches Ok(d) && d.children@.len() == 0),
            one_plain_line(input@) ==> (r matches Ok(d) && plain_paragraph(d.children@, line_body(input@))),
            forall|c1: char, c2: char| #[trigger] two_headings(lines_spec(input@), c1, c2) ==> (r matches Ok(d)
                && headings_of_levels(d.children@, 1, second_level(c1, c2))),
    {
        let text = chars_of(input);
        match parse_rst(&text) {
            Ok(children) => Ok(Document { children }),
            Err(e) => Err(e),
        }
    }
}

/// The detail of the error reported where reading makes no progress.
pub open spec fn stall_detail() -> Seq<char> {
    "reStructuredText input makes no progress at a block"@
}

fn stalled() -> (e: ParseError)
    ensures
        error_is(e, stall_detail()),
{
    ParseError::invalid("reStructuredText input makes no progress at a block")
}

/// Parses a whole reStructuredText text into blocks.
pub(crate) fn parse_rst(input: &Vec<char>) -> (r: Result<Vec<Block>, ParseError>)
    ensures
        r matches Err(e) ==> error_is(e, stall_detail()),
        input@.len() == 0 ==> (r matches Ok(b) && b@.len() == 0),
        one_plain_line(input@) ==> reads_as_plain_paragraph(r, line_body(input@)),
        forall|c1: char, c2: char| #[trigger] two_headings(lines_spec(input@), c1, c2) ==> (r matches Ok(b)
            && headings_of_levels(b@, 1, second_level(c1, c2))),
    decreases input@.len(), 2nat,
{
    let mut cur = LineCursor::new(input);
    proof {
        if one_plain_line(input@) {
            let l = line_body(input@);
            if plain_line(input@) {
                assert(l == input@);
            } else {
                assert(input@ =~= l.push('\n'));
            }
            lemma_plain_line(l);
            assert(views(cur.lines@) == seq![l]);
            assert(cur.lines@.len() == 1);
            assert(views(cur.lines@)[0] == cur.lines@[0]@);
        }
    }
    assert(crate::text::views(cur.lines@).len() == cur.lines@.len());
    assert(input@.len() == 0 ==> crate::text::lines_spec(input@).len() == 0);
    let mut seen: Vec<char> = Vec::new();
    parse_blocks(&mut cur, &mut seen, input.len())
}

/// What a plain line is not in reStructuredText: it starts no block and
/// holds no inline markup.
proof fn lemma_plain_line(l: Seq<char>)
    requires
        plain_line(l),
    ensures
        trim_spec(l) == l,
        trim_start_spec(l) == l,
        trim_end_spec(l) == l,
        !has_mark(l),
        adornment_of(l) is None,
        !has_prefix(l, ".. "@),
        !rst_indented(l),
        !has_prefix(l, "* "@),
        !has_prefix(l, "- "@),
        !has_prefix(l, "+ "@),
        !has_prefix(l, "#. "@),
        forall|d: int| !#[trigger] first_dot_space(l, d),
        l[0] != '+' && l[0] != '=' && l[0] != ' ',
        plain_rst(l),
        lines_spec(l) == seq![l],
        lines_spec(l.push('\n')) == seq![l],
{
    lemma_plain_line_text(l);
    assert(trim_end_spec(l) == l);
    reveal_strlit(".. ");
    reveal_strlit("   ");
    reveal_strlit("* ");
    reveal_strlit("- ");
    reveal_strlit("+ ");
    reveal_strlit("#. ");
    reveal_strlit(". ");
    lemma_prefix_mark(l, ".. "@, 0);
    lemma_prefix_head(l, "   "@);
    lemma_prefix_mark(l, "* "@, 0);
    lemma_prefix_mark(l, "- "@, 0);
    lemma_prefix_mark(l, "+ "@, 0);
    lemma_prefix_mark(l, "#. "@, 0);
    assert forall|d: int| !#[trigger] first_dot_space(l, d) by {
        if first_dot_space(l, d) {
            assert(l.subrange(d, d + 2)[0] == l[d]);
            assert(!plain_char(l[d]));
        }
    }
    assert forall|i: int| 0 <= i < l.len() implies !rst_markup_char(#[trigger] l[i]) by {
        assert(plain_char(l[i]));
    }
}

/// Whether `c` is one of the characters that underline headings.
pub open spec fn is_heading_char_spec(c: char) -> bool {
    c == '=' || c == '-' || c == '~' || c == '"' || c == '^' || c == '\''
}

fn is_heading_char(c: char) -> (b: bool)
    ensures
        b == is_heading_char_spec(c),
{
    c == '=' || c == '-' || c == '~' || c == '"' || c == '^' || c == '\''
}

/// The adornment character of a line made of at least three copies of one
/// heading character (trailing whitespace ignored).
pub open spec fn adornment_of(l: Seq<char>) -> Option<char> {
    let t = trim_end_spec(l);
    if t.len() >= 3 && is_heading_char_spec(t[0]) && all_eq_spec(t, t[0]) {
        Some(t[0])
    } else {
        None
    }
}

/// The adornment character of a line made of at least three copies of one
/// heading character (trailing whitespace ignored).
pub(crate) fn adornment_char(line: &Vec<char>) -> (r: Option<char>)
    ensures
        r matches Some(c) ==> is_heading_char_spec(c),
        r == adornment_of(line@),
{
    let t = trim_end(line);
    if t.len() < 3 {
        return None;
    }
    let c = t[0];
    if is_heading_char(c) && all_eq(&t, c) {
        Some(c)
    } else {
        None
    }
}

/// The level of headings adorned with `c` after the adornments `seen`: the
/// 1-based place of `c` among them, or one more than their number when `c`
/// is new.
pub open spec fn adornment_level(seen: Seq<char>, c: char) -> int {
    match index_of_char(seen, c) {
        Some(k) => k + 1,
        None => seen.len() as int + 1,
    }
}

/// The adornments seen after a heading adorned with `c`: `c` is added when
/// it is new.
pub open spec fn seen_after(seen: Seq<char>, c: char) -> Seq<char> {
    if seen.contains(c) {
        seen
    } else {
        seen.push(c)
    }
}

/// Heading levels follow the order in which adornments are first met: the
/// level of `c` is its 1-based place in the adornments seen once it has been
/// met, the adornments met before keep their places, no earlier place holds
/// `c`, and a new adornment comes right after all those already seen.
pub proof fn law_adornment_levels(seen: Seq<char>, c: char)
    ensures
        1 <= adornment_level(seen, c) <= seen_after(seen, c).len(),
        seen_after(seen, c)[adornment_level(seen, c) - 1] == c,
        forall|j: int| 0 <= j < adornment_level(seen, c) - 1 ==> #[trigger] seen_after(seen, c)[j] != c,
        seen_after(seen, c).subrange(0, seen.len() as int) == seen,
        !seen.contains(c) ==> adornment_level(seen, c) == seen.len() + 1,
        seen.contains(c) ==> seen_after(seen, c) == seen && adornment_level(seen, c) <= seen.len(),
{
    lemma_index_of_char(seen, c);
    if seen.contains(c) {
        let k = choose|k: int| 0 <= k < seen.len() && seen[k] == c;
        assert(seen[k] == c);
    } else {
        match index_of_char(seen, c) {
            Some(k) => {
                assert(seen.contains(c));
            },
            None => {},
        }
    }
    assert(seen_after(seen, c).subrange(0, seen.len() as int) =~= seen);
}

/// The level of headings adorned with `c`: its place among the adornments
/// seen so far, a new one coming last.
fn heading_level(seen: &mut Vec<char>, c: char) -> (level: u8)
    ensures
        final(seen)@ == seen_after(old(seen)@, c),
        old(seen)@.len() < 255 ==> level == adornment_level(old(seen)@, c),
{
    proof {
        lemma_index_of_char(seen@, c);
    }
    let mut k: usize = 0;
    while k < seen.len()
        invariant
            k <= seen.len(),
            seen@ == old(seen)@,
            forall|j: int| 0 <= j < k ==> seen@[j] != c,
            match index_of_char(seen@, c) {
                Some(i) => 0 <= i < seen@.len() && seen@[i] == c && forall|j: int| 0 <= j < i ==> seen@[j] != c,
                None => forall|j: int| 0 <= j < seen@.len() ==> seen@[j] != c,
            },
        decreases seen.len() - k,
    {
        if seen[k] == c {
            assert(seen@.contains(c));
            return (k + 1) as u8;
        }
        k += 1;
    }
    assert(!seen@.contains(c));
    seen.push(c);
    #[verifier::truncate]
    (seen.len() as u8)
}

/// A punctuation character that a transition line may repeat.
pub open spec fn transition_char(c: char) -> bool {
    c == '-' || c == '=' || c == '_' || c == '*' || c == '+' || c == '#'
}

/// Line `line` at `pos` of `lines` is a transition: trimmed, four or more
/// copies of one punctuation character, at the start or after a blank line.
pub open spec fn transition_at(lines: Seq<Seq<char>>, pos: int, line: Seq<char>) -> bool {
    let t = trim_spec(line);
    &&& t.len() >= 4
    &&& transition_char(t[0])
    &&& all_eq_spec(t, t[0])
    &&& (pos == 0 || pos - 1 >= lines.len() || all_ws(lines[pos - 1]))
}

/// Whether the current line is a transition: four or more copies of one
/// punctuation character, at the start or after a blank line.
fn is_transition(cur: &LineCursor, line: &Vec<char>) -> (b: bool)
    ensures
        b == transition_at(views(cur.lines@), cur.pos as int, line@),
{
    let t = trim(line);
    if t.len() < 4 {
        return false;
    }
    let c = t[0];
    let after_blank = cur.pos == 0 || (cur.pos - 1 < cur.lines.len() && is_blank(
        &cur.lines[cur.pos - 1],
    )) || cur.pos - 1 >= cur.lines.len();
    (c == '-' || c == '=' || c == '_' || c == '*' || c == '+' || c == '#') && all_eq(&t, c)
        && after_blank
}

fn indented(line: &Vec<char>) -> (b: bool)
    ensures
        b == rst_indented(line@),
{
    starts_with_lit(line, "   ") || first_is(line, '\t')
}

/// The number of bytes of the leading whitespace of `l` (at most the
/// largest `usize`).
pub open spec fn indent_width(l: Seq<char>) -> nat {
    let w = utf8_len(l.subrange(0, l.len() - trim_start_spec(l).len()));
    if w > usize::MAX {
        usize::MAX as nat
    } else {
        w
    }
}

/// `line` starts a bullet item: after its indentation, `* `, `- ` or `+ `,
/// and it is no transition.
pub open spec fn bullet_start_at(lines: Seq<Seq<char>>, pos: int, line: Seq<char>) -> bool {
    let t = trim_start_spec(line);
    (has_prefix(t, "* "@) || has_prefix(t, "- "@) || has_prefix(t, "+ "@)) && !transition_at(
        lines,
        pos,
        line,
    )
}

/// The number of bytes of leading whitespace of a line.
fn indent_bytes(line: &Vec<char>) -> (n: usize)
    ensures
        n == indent_width(line@),
{
    let k = trim_start_index(line);
    byte_len(&substring(line, 0, k))
}

fn is_bullet_start(cur: &LineCursor, line: &Vec<char>) -> (b: bool)
    ensures
        b == bullet_start_at(views(cur.lines@), cur.pos as int, line@),
{
    let t = trim_start(line);
    (starts_with_lit(&t, "* ") || starts_with_lit(&t, "- ") || starts_with_lit(&t, "+ "))
        && !is_transition(cur, line)
}

/// `d` is where `. ` first occurs in `t`.
pub open spec fn first_dot_space(t: Seq<char>, d: int) -> bool {
    &&& 0 <= d
    &&& occurs_at(t, ". "@, d)
    &&& forall|j: int| 0 <= j < d ==> !occurs_at(t, ". "@, j)
}

/// What the marker of an enumerated item gives for `line`: after the
/// indentation, `#. ` gives `#`; otherwise the digits before the first `. `
/// (at least one, digits only), with the text after it.
pub open spec fn enum_marker_of(line: Seq<char>, r: Option<(Seq<char>, Seq<char>)>) -> bool {
    let t = trim_start_spec(line);
    if has_prefix(t, "#. "@) {
        r == Some((seq!['#'], t.subrange(3, t.len() as int)))
    } else {
        match r {
            Some((num, text)) => exists|d: int|
                #![trigger first_dot_space(t, d)]
                first_dot_space(t, d) && d > 0 && num == t.subrange(0, d) && all_digits(num) && text
                    == t.subrange(d + 2, t.len() as int),
            None => forall|d: int| #[trigger]
                first_dot_space(t, d) ==> d == 0 || !all_digits(t.subrange(0, d)),
        }
    }
}

/// The views of a marker and text pair.
pub open spec fn pair_views(r: Option<(Vec<char>, Vec<char>)>) -> Option<(Seq<char>, Seq<char>)> {
    match r {
        Some((a, b)) => Some((a@, b@)),
        None => None,
    }
}

/// The number before `. ` that starts an enumerated item (`#` for `#. `),
/// and the item's text.
fn enum_marker(line: &Vec<char>) -> (r: Option<(Vec<char>, Vec<char>)>)
    ensures
        enum_marker_of(line@, pair_views(r)),
{
    let t = trim_start(line);
    proof {
        reveal_strlit("#. ");
    }
    if starts_with_lit(&t, "#. ") {
        let mut num: Vec<char> = Vec::new();
        num.push('#');
        return Some((num, skip(&t, 3)));
    }
    proof {
        reveal_strlit(". ");
    }
    match find_lit(&t, ". ") {
        Some(d) => {
            assert(first_dot_space(t@, d as int));
            let prefix = substring(&t, 0, d);
            if prefix.len() > 0 && is_all_digits(&prefix) {
                Some((prefix, skip(&t, d + 2)))
            } else {
                proof {
                    assert forall|e: int| #[trigger]
                        first_dot_space(t@, e) implies e == 0 || !all_digits(t@.subrange(0, e)) by {
                        if e < d {
                        } else if e > d {
                            assert(!occurs_at(t@, ". "@, d as int));
                        }
                    }
                }
                None
            }
        },
        None => None,
    }
}

/// An underline of the heading character `c` for the title `t`: at least
/// three copies of `c`, and at least as wide as `t`.
pub open spec fn underline_for(u: Seq<char>, c: char, t: Seq<char>) -> bool {
    &&& is_heading_char_spec(c)
    &&& u.len() >= 3
    &&& u.len() >= t.len()
    &&& all_eq_spec(u, c)
}

/// Lines that are two headings of plain titles, the first underlined with
/// `c1`, the second with `c2`, a blank line between them.
pub open spec fn two_headings(ls: Seq<Seq<char>>, c1: char, c2: char) -> bool {
    &&& ls.len() == 5
    &&& plain_line(ls[0])
    &&& underline_for(ls[1], c1, ls[0])
    &&& ls[2].len() == 0
    &&& plain_line(ls[3])
    &&& underline_for(ls[4], c2, ls[3])
}

/// The blocks are two headings, of levels `a` and `b`.
pub open spec fn headings_of_levels(bs: Seq<Block>, a: int, b: int) -> bool {
    &&& bs.len() == 2
    &&& bs[0] matches Block::Heading { level, .. } && level == a
    &&& bs[1] matches Block::Heading { level, .. } && level == b
}

/// The level that the second of two headings gets: the first level again
/// when both use the same adornment, the next one when it is new.
pub open spec fn second_level(c1: char, c2: char) -> int {
    if c1 == c2 {
        1
    } else {
        2
    }
}

proof fn lemma_ascii_width(s: Seq<char>)
    requires
        forall|i: int| 0 <= i < s.len() ==> (#[trigger] s[i] as u32) < 0x80,
    ensures
        utf8_len(s) == s.len(),
    decreases s.len(),
{
    if s.len() > 0 {
        lemma_ascii_width(s.drop_last());
        assert((s.last() as u32) < 0x80);
    }
}

/// What an underline is: its own trimmed form, an adornment of its
/// character, at least as wide as its title, which is no adornment.
proof fn lemma_underline(u: Seq<char>, c: char, t: Seq<char>)
    requires
        underline_for(u, c, t),
        plain_line(t),
    ensures
        trim_spec(u) == u,
        adornment_of(u) == Some(c),
        byte_width(u) >= byte_width(t),
        u[0] == c,
{
    lemma_plain_line(t);
    assert(u[0] == c);
    assert(u.last() == c);
    assert(!is_ws_spec(c));
    assert(trim_start_spec(u) == u);
    assert(trim_end_spec(u) == u);
    assert forall|i: int| 0 <= i < u.len() implies (#[trigger] u[i] as u32) < 0x80 by {
        assert(u[i] == c);
    }
    assert forall|i: int| 0 <= i < t.len() implies (#[trigger] t[i] as u32) < 0x80 by {
        assert(plain_char(t[i]));
    }
    lemma_ascii_width(u);
    lemma_ascii_width(t);
}

fn parse_blocks(cur: &mut LineCursor, seen: &mut Vec<char>, budget: usize) -> (r: Result<
    Vec<Block>,
    ParseError,
>)
    requires
        old(cur).wf(),
    ensures
        final(cur).moved_from(old(cur)),
        r matches Err(e) ==> error_is(e, stall_detail()),
        old(cur).pos >= old(cur).lines.len() ==> (r matches Ok(b) && b@.len() == 0),
        old(cur).pos == 0 && old(cur).lines@.len() == 1 && plain_line(old(cur).lines@[0]@)
            ==> reads_as_plain_paragraph(r, old(cur).lines@[0]@),
        forall|c1: char, c2: char|
            old(cur).pos == 0 && old(seen)@.len() == 0 && #[trigger] two_headings(views(old(cur).lines@), c1, c2)
                ==> (r matches Ok(b) && headings_of_levels(b@, 1, second_level(c1, c2))),
    decreases budget, 1nat,
{
    let ghost ls = views(old(cur).lines@);
    let ghost tw = old(cur).pos == 0 && old(seen)@.len() == 0 && exists|c1: char, c2: char|
        #[trigger] two_headings(ls, c1, c2);
    let ghost cc: (char, char) = if tw {
        choose|c1: char, c2: char| #[trigger] two_headings(ls, c1, c2)
    } else {
        (' ', ' ')
    };
    proof {
        if tw {
            lemma_plain_line(ls[0]);
            lemma_plain_line(ls[3]);
            lemma_underline(ls[1], cc.0, ls[0]);
            lemma_underline(ls[4], cc.1, ls[3]);
            assert forall|c1: char, c2: char| #[trigger] two_headings(ls, c1, c2) implies c1 == cc.0 && c2 == cc.1 by {
                assert(ls[1][0] == c1);
                assert(ls[4][0] == c2);
            }
        }
    }
    let ghost single = old(cur).pos == 0 && old(cur).lines@.len() == 1 && plain_line(old(cur).lines@[0]@);
    let ghost l0 = if old(cur).lines@.len() > 0 {
        old(cur).lines@[0]@
    } else {
        Seq::<char>::empty()
    };
    let mut blocks: Vec<Block> = Vec::new();
    while !cur.at_end()
        invariant
            cur.moved_from(old(cur)),
            old(cur).pos >= old(cur).lines.len() ==> blocks@.len() == 0,
            single == (old(cur).pos == 0 && old(cur).lines@.len() == 1 && plain_line(old(cur).lines@[0]@)),
            single ==> l0 == old(cur).lines@[0]@,
            single ==> (cur.pos == 0 && blocks@.len() == 0) || (cur.pos == 1 && plain_paragraph(blocks@, l0)),
            ls == views(old(cur).lines@),
            tw == (old(cur).pos == 0 && old(seen)@.len() == 0 && exists|c1: char, c2: char|
                #[trigger] two_headings(ls, c1, c2)),
            tw ==> old(cur).pos == 0 && two_headings(ls, cc.0, cc.1),
            tw ==> forall|c1: char, c2: char| #[trigger] two_headings(ls, c1, c2) ==> c1 == cc.0 && c2 == cc.1,
            tw ==> {
                ||| cur.pos == 0 && blocks@.len() == 0 && seen@.len() == 0
                ||| (cur.pos == 2 || cur.pos == 3) && blocks@.len() == 1 && (blocks@[0] matches Block::Heading { level, .. } && level == 1)
                    && seen@ == seq![cc.0]
                ||| cur.pos == 5 && headings_of_levels(blocks@, 1, second_level(cc.0, cc.1))
            },
        decreases cur.lines.len() - cur.pos,
    {
        let before = cur.pos;
        let line = cur.line();
        proof {
            if tw {
                lemma_plain_line(ls[0]);
                lemma_plain_line(ls[3]);
                lemma_underline(ls[1], cc.0, ls[0]);
                lemma_underline(ls[4], cc.1, ls[3]);
                assert(cur.lines@[cur.pos as int]@ == ls[cur.pos as int]);
                assert(!transition_at(ls, 0, ls[0]));
                assert(!transition_at(ls, 3, ls[3]));
                assert(!overlined_heading(ls, 0));
                assert(!overlined_heading(ls, 3));
                assert(underlined_heading(ls, 0));
                assert(underlined_heading(ls, 3));
                assert(heading_adornment(ls, 0) == cc.0);
                assert(heading_adornment(ls, 3) == cc.1);
                lemma_index_of_char(seq![cc.0], cc.1);
                lemma_index_of_char(Seq::<char>::empty(), cc.0);
                assert(seq![cc.0].contains(cc.1) ==> cc.1 == cc.0);
                assert(adornment_level(Seq::<char>::empty(), cc.0) == 1);
                assert(adornment_level(seq![cc.0], cc.1) == second_level(cc.0, cc.1)) by {
                    if cc.0 == cc.1 {
                        assert(seq![cc.0][0] == cc.1);
                    }
                }
                assert(seen_after(Seq::<char>::empty(), cc.0) =~= seq![cc.0]);
            }
            if single && cur.pos == 0 {
                lemma_plain_line(l0);
                assert(views(cur.lines@)[0] == l0);
                assert(!transition_at(views(cur.lines@), 0, l0));
                assert(!overlined_heading(views(cur.lines@), 0));
                assert(!underlined_heading(views(cur.lines@), 0));
            }
        }
        let t = trim(&line);
        if t.len() == 0 {
            cur.pos += 1;
            continue;
        }
        if is_transition(cur, &line) {
            blocks.push(Block::HorizontalRule);
            cur.pos += 1;
            continue;
        }
        if let Some(b) = try_parse_heading(cur, seen) {
            blocks.push(b);
            continue;
        }
        if starts_with_lit(&trim_start(&line), ".. ") {
            blocks.push(parse_directive(cur));
        } else if indented(&line) {
            match parse_blockquote(cur, budget) {
                Ok(b) => blocks.push(b),
                Err(e) => return Err(e),
            }
        } else if is_bullet_start(cur, &line) {
            blocks.push(parse_bullet_list(cur, indent_bytes(&line)));
        } else if enum_marker(&line).is_some() {
            blocks.push(parse_enum_list(cur, indent_bytes(&line)));
        } else if is_simple_table_start(&line) {
            blocks.push(parse_simple_table(cur));
        } else {
            let mut done = false;
            if first_is(&t, '+') && contains_char(&line, '-') {
                if let Some(b) = try_parse_grid_table(cur) {
                    blocks.push(b);
                    done = true;
                }
            }
            if !done {
                blocks.push(parse_paragraph(cur));
            }
        }
        if cur.pos == before {
            return Err(stalled());
        }
    }
    Ok(blocks)
}

/// The width in bytes of `s` as `byte_len` counts it.
pub open spec fn byte_width(s: Seq<char>) -> nat {
    if utf8_len(s) > usize::MAX {
        usize::MAX as nat
    } else {
        utf8_len(s)
    }
}

/// A heading with an overline at `p`: an adornment line, a line of text, and
/// an underline of the same character.
pub open spec fn overlined_heading(ls: Seq<Seq<char>>, p: int) -> bool {
    let t = trim_spec(ls[p]);
    &&& adornment_of(t) is Some
    &&& ls.len() - p > 2
    &&& trim_spec(ls[p + 1]).len() > 0
    &&& adornment_of(trim_spec(ls[p + 2])) == adornment_of(t)
}

/// A heading underlined at `p + 1`: a line of text, then an adornment line at
/// least as wide.
pub open spec fn underlined_heading(ls: Seq<Seq<char>>, p: int) -> bool {
    let t = trim_spec(ls[p]);
    let next = trim_spec(ls[p + 1]);
    &&& p + 1 < ls.len()
    &&& t.len() > 0
    &&& adornment_of(next) is Some
    &&& byte_width(next) >= byte_width(t)
}

/// The adornment character of the heading at `p`: that of its overline, or
/// of its underline.
pub open spec fn heading_adornment(ls: Seq<Seq<char>>, p: int) -> char {
    if overlined_heading(ls, p) {
        adornment_of(trim_spec(ls[p]))->0
    } else {
        adornment_of(trim_spec(ls[p + 1]))->0
    }
}

fn try_parse_heading(cur: &mut LineCursor, seen: &mut Vec<char>) -> (r: Option<Block>)
    requires
        old(cur).wf(),
        old(cur).pos < old(cur).lines.len(),
    ensures
        r is None ==> final(seen)@ == old(seen)@,
        ({
            let c = heading_adornment(views(old(cur).lines@), old(cur).pos as int);
            r matches Some(Block::Heading { level, .. }) ==> final(seen)@ == seen_after(old(seen)@, c) && (old(
                seen,
            )@.len() < 255 ==> level == adornment_level(old(seen)@, c))
        }),
        final(cur).moved_from(old(cur)),
        r is Some ==> final(cur).pos > old(cur).pos,
        r is None ==> final(cur).pos == old(cur).pos,
        r matches Some(b) ==> b is Heading,
        ({
            let ls = views(old(cur).lines@);
            let p = old(cur).pos as int;
            if overlined_heading(ls, p) {
                r is Some && final(cur).pos == p + 3
            } else if underlined_heading(ls, p) {
                r is Some && final(cur).pos == p + 2
            } else {
                r is None
            }
        }),
{
    let ghost ls = views(cur.lines@);
    let t = cur.trimmed();
    let p = cur.pos;
    assert(t@ == trim_spec(ls[p as int]));
    if let Some(c) = adornment_char(&t) {
        if cur.lines.len() - p > 2 {
            let text = trim(&cur.lines[p + 1]);
            let under = trim(&cur.lines[p + 2]);
            assert(text@ == trim_spec(ls[p + 1]));
            assert(under@ == trim_spec(ls[p + 2]));
            if text.len() > 0 && adornment_char(&under) == Some(c) {
                let level = heading_level(seen, c);
                cur.pos = p + 3;
                return Some(Block::Heading { level, content: rst_inlines(&text) });
            }
        }
    }
    if p + 1 < cur.lines.len() && t.len() > 0 {
        let next = trim(&cur.lines[p + 1]);
        assert(next@ == trim_spec(ls[p + 1]));
        if let Some(c) = adornment_char(&next) {
            if byte_len(&next) >= byte_len(&t) {
                let level = heading_level(seen, c);
                cur.pos = p + 2;
                return Some(Block::Heading { level, content: rst_inlines(&t) });
            }
        }
    }
    None
}

/// An indented line: three spaces or a tab first.
pub open spec fn rst_indented(l: Seq<char>) -> bool {
    has_prefix(l, "   "@) || (l.len() > 0 && l[0] == '\t')
}

/// A blank line, or a directive option such as `:linenos:`.
pub open spec fn option_line(l: Seq<char>) -> bool {
    let t = trim_spec(l);
    t.len() == 0 || (t[0] == ':' && t.last() == ':')
}

/// The first line from `k` on that is not an option line, or the number of lines.
pub open spec fn after_options(lines: Seq<Seq<char>>, k: int) -> int
    decreases lines.len() - k,
{
    if k < 0 || k >= lines.len() {
        lines.len() as int
    } else if option_line(lines[k]) {
        after_options(lines, k + 1)
    } else {
        k
    }
}

/// An indented line without its indentation: three spaces, or else all its
/// leading whitespace.
pub open spec fn dedented(l: Seq<char>) -> Seq<char> {
    if has_prefix(l, "   "@) {
        l.subrange(3, l.len() as int)
    } else {
        trim_start_spec(l)
    }
}

/// The body of a code directive from line `k`: its indented lines dedented,
/// the blank lines inside it kept empty, and the line after it.
pub open spec fn code_body(lines: Seq<Seq<char>>, k: int) -> (Seq<Seq<char>>, int)
    decreases lines.len() - k,
{
    if k < 0 || k >= lines.len() {
        (seq![], lines.len() as int)
    } else if all_ws(lines[k]) {
        if k + 1 < lines.len() && (rst_indented(lines[k + 1]) || all_ws(lines[k + 1])) {
            let (c, e) = code_body(lines, k + 1);
            (seq![Seq::<char>::empty()] + c, e)
        } else {
            (seq![], k)
        }
    } else if rst_indented(lines[k]) {
        let (c, e) = code_body(lines, k + 1);
        (seq![dedented(lines[k])] + c, e)
    } else {
        (seq![], k)
    }
}

/// The value of the last `:alt:` option among the indented lines from `k`
/// (`alt` when there is none), and the line after them.
pub open spec fn image_options(lines: Seq<Seq<char>>, k: int, alt: Seq<char>) -> (Seq<char>, int)
    decreases lines.len() - k,
{
    if k < 0 || k >= lines.len() {
        (alt, lines.len() as int)
    } else if all_ws(lines[k]) || !rst_indented(lines[k]) {
        (alt, k)
    } else {
        let t = trim_spec(lines[k]);
        image_options(
            lines,
            k + 1,
            if has_prefix(t, ":alt:"@) {
                trim_spec(t.subrange(":alt:"@.len() as int, t.len() as int))
            } else {
                alt
            },
        )
    }
}

/// The first line from `k` on that is blank or not indented, or the number of lines.
pub open spec fn indented_run_end(lines: Seq<Seq<char>>, k: int) -> int
    decreases lines.len() - k,
{
    if k < 0 || k >= lines.len() {
        lines.len() as int
    } else if all_ws(lines[k]) || !rst_indented(lines[k]) {
        k
    } else {
        indented_run_end(lines, k + 1)
    }
}

/// `b` is a paragraph of one image with address `url` and, when `alt` is not
/// empty, the alternative text `alt`.
pub open spec fn is_image_paragraph(b: Block, url: Seq<char>, alt: Seq<char>) -> bool {
    match b {
        Block::Paragraph { content } => content@.len() == 1 && match content@[0] {
            Inline::Image { url: u, alt: a, title, link } => u@ == url && title is None && link is None
                && if alt.len() > 0 {
                a@.len() == 1 && match a@[0] {
                    Inline::Text(x) => x@ == alt,
                    _ => false,
                }
            } else {
                a@.len() == 0
            },
            _ => false,
        },
        _ => false,
    }
}

/// What reading the directive at line `p` gives, and the line after it: a
/// `code-block` (or `code`) directive is a code block of its indented body
/// after its options; an `image` directive a paragraph of that image; any
/// other directive, with its indented lines, a raw reStructuredText block.
pub open spec fn directive(lines: Seq<Seq<char>>, p: int, b: Block, after: int) -> bool {
    let t = trim_spec(lines[p]);
    if has_prefix(t, ".. code-block::"@) || has_prefix(t, ".. code::"@) {
        let rest = if has_prefix(t, ".. code-block::"@) {
            t.subrange(".. code-block::"@.len() as int, t.len() as int)
        } else {
            t.subrange(".. code::"@.len() as int, t.len() as int)
        };
        let l = trim_spec(rest);
        let (c, e) = code_body(lines, after_options(lines, p + 1));
        &&& after == e
        &&& is_code_block(
            b,
            if l.len() == 0 {
                None
            } else {
                Some(l)
            },
            join_spec(without_trailing_empty(c), "\n"@),
        )
    } else if has_prefix(t, ".. image::"@) {
        let (alt, e) = image_options(lines, p + 1, seq![]);
        &&& after == e
        &&& is_image_paragraph(b, trim_spec(t.subrange(".. image::"@.len() as int, t.len() as int)), alt)
    } else {
        let e = indented_run_end(lines, p + 1);
        &&& after == e
        &&& is_raw_block(b, "rst"@, join_spec(lines.subrange(p, e), "\n"@))
    }
}

/// Reads a directive: a code block, an image, or any other directive kept as
/// a raw reStructuredText block.
fn parse_directive(cur: &mut LineCursor) -> (b: Block)
    requires
        old(cur).wf(),
        old(cur).pos < old(cur).lines.len(),
    ensures
        final(cur).moved_from(old(cur)),
        final(cur).pos > old(cur).pos,
        directive(views(old(cur).lines@), old(cur).pos as int, b, final(cur).pos as int),
{
    let ghost ls = views(cur.lines@);
    let ghost p = cur.pos as int;
    let line = cur.trimmed();
    assert(line@ == trim_spec(ls[p]));
    let lang_part = if let Some(rest) = strip_prefix_lit(&line, ".. code-block::") {
        Some(rest)
    } else if let Some(rest) = strip_prefix_lit(&line, ".. code::") {
        Some(rest)
    } else {
        None
    };
    if let Some(lang_part) = lang_part {
        let l = trim(&lang_part);
        let language = if l.len() == 0 {
            None
        } else {
            Some(string_of(&l))
        };
        cur.pos += 1;
        skip_options(cur);
        let content = code_directive_body(cur);
        return Block::CodeBlock { language, content: string_of(&join(&content, "\n")) };
    }
    if let Some(rest) = strip_prefix_lit(&line, ".. image::") {
        let url = trim(&rest);
        cur.pos += 1;
        let alt = image_alt(cur);
        let mut alt_inlines: Vec<Inline> = Vec::new();
        if alt.len() > 0 {
            alt_inlines.push(Inline::Text(string_of(&alt)));
        }
        let mut content: Vec<Inline> = Vec::new();
        content.push(Inline::Image { url: string_of(&url), alt: alt_inlines, title: None, link: None });
        return Block::Paragraph { content };
    }
    let mut content: Vec<Vec<char>> = Vec::new();
    content.push(cur.line());
    cur.pos += 1;
    let mut stop = false;
    assert(views(content@) =~= ls.subrange(p, cur.pos as int));
    while !stop && !cur.at_end()
        invariant
            cur.moved_from(old(cur)),
            cur.pos > old(cur).pos,
            ls == views(cur.lines@),
            ls.len() == cur.lines@.len(),
            p == old(cur).pos,
            views(content@) == ls.subrange(p, cur.pos as int),
            indented_run_end(ls, p + 1) == indented_run_end(ls, cur.pos as int),
            stop ==> cur.pos < ls.len() && indented_run_end(ls, cur.pos as int) == cur.pos,
        decreases cur.lines.len() - cur.pos, if stop {
            0int
        } else {
            1int
        },
    {
        let l = cur.line();
        assert(l@ == ls[cur.pos as int]);
        if is_blank(&l) || !indented(&l) {
            stop = true;
        } else {
            let ghost before = content@;
            content.push(l);
            assert(views(content@) =~= views(before).push(ls[cur.pos as int]));
            cur.pos += 1;
            assert(ls.subrange(p, cur.pos as int) =~= ls.subrange(p, cur.pos - 1).push(ls[cur.pos - 1]));
        }
    }
    Block::RawBlock { format: Some(string_of(&chars_of("rst"))), content: string_of(&join(&content, "\n")) }
}

/// Moves past the option lines of a directive (and blank lines).
fn skip_options(cur: &mut LineCursor)
    requires
        old(cur).wf(),
    ensures
        final(cur).lines@ == old(cur).lines@,
        final(cur).pos == after_options(views(old(cur).lines@), old(cur).pos as int),
        final(cur).moved_from(old(cur)),
{
    let ghost ls = views(cur.lines@);
    let mut stop = false;
    while !stop && !cur.at_end()
        invariant
            cur.moved_from(old(cur)),
            ls == views(cur.lines@),
            ls.len() == cur.lines@.len(),
            after_options(ls, old(cur).pos as int) == after_options(ls, cur.pos as int),
            stop ==> cur.pos < ls.len() && after_options(ls, cur.pos as int) == cur.pos,
        decreases cur.lines.len() - cur.pos, if stop {
            0int
        } else {
            1int
        },
    {
        let lt = cur.trimmed();
        assert(lt@ == trim_spec(ls[cur.pos as int]));
        if lt.len() == 0 || (first_is(&lt, ':') && last_is(&lt, ':')) {
            cur.pos += 1;
        } else {
            stop = true;
        }
    }
}

/// Reads the body of a code directive: its indented lines dedented, blank
/// lines inside it kept, the empty lines at its end dropped.
fn code_directive_body(cur: &mut LineCursor) -> (content: Vec<Vec<char>>)
    requires
        old(cur).wf(),
    ensures
        final(cur).moved_from(old(cur)),
        views(content@) == without_trailing_empty(code_body(views(old(cur).lines@), old(cur).pos as int).0),
        final(cur).pos == code_body(views(old(cur).lines@), old(cur).pos as int).1,
{
    let ghost ls = views(cur.lines@);
    let ghost s0 = cur.pos as int;
    let mut content: Vec<Vec<char>> = Vec::new();
    let mut stop = false;
    assert(views(content@) + code_body(ls, s0).0 =~= code_body(ls, s0).0);
    while !stop && !cur.at_end()
        invariant
            cur.moved_from(old(cur)),
            ls == views(cur.lines@),
            ls.len() == cur.lines@.len(),
            s0 == old(cur).pos,
            views(content@) + code_body(ls, cur.pos as int).0 == code_body(ls, s0).0,
            code_body(ls, cur.pos as int).1 == code_body(ls, s0).1,
            stop ==> cur.pos < ls.len() && code_body(ls, cur.pos as int) == (
            Seq::<Seq<char>>::empty(),
            cur.pos as int,
            ),
        decreases cur.lines.len() - cur.pos, if stop {
            0int
        } else {
            1int
        },
    {
        let l = cur.line();
        assert(l@ == ls[cur.pos as int]);
        let ghost before = content@;
        if is_blank(&l) {
            if cur.pos + 1 < cur.lines.len() && (indented(&cur.lines[cur.pos + 1]) || is_blank(
                &cur.lines[cur.pos + 1],
            )) {
                assert(cur.lines@[cur.pos + 1]@ == ls[cur.pos + 1]);
                content.push(Vec::new());
                assert(views(content@) =~= views(before).push(Seq::<char>::empty()));
                assert(views(content@) + code_body(ls, cur.pos + 1).0 =~= views(before) + code_body(
                    ls,
                    cur.pos as int,
                ).0);
                cur.pos += 1;
            } else {
                if cur.pos + 1 < cur.lines.len() {
                    assert(cur.lines@[cur.pos + 1]@ == ls[cur.pos + 1]);
                }
                stop = true;
            }
        } else if indented(&l) {
            let d = match strip_prefix_lit(&l, "   ") {
                Some(rest) => rest,
                None => trim_start(&l),
            };
            proof {
                reveal_strlit("   ");
            }
            assert(d@ == dedented(ls[cur.pos as int]));
            content.push(d);
            assert(views(content@) =~= views(before).push(dedented(ls[cur.pos as int])));
            assert(views(content@) + code_body(ls, cur.pos + 1).0 =~= views(before) + code_body(
                ls,
                cur.pos as int,
            ).0);
            cur.pos += 1;
        } else {
            stop = true;
        }
    }
    assert(views(content@) =~= code_body(ls, s0).0);
    let ghost full = views(content@);
    while content.len() > 0 && content[content.len() - 1].len() == 0
        invariant
            without_trailing_empty(views(content@)) == without_trailing_empty(full),
        decreases content.len(),
    {
        let ghost before = content@;
        content.pop();
        assert(views(content@) =~= views(before).drop_last());
    }
    content
}

/// Reads the options of an image directive; the last `:alt:` value, or nothing.
fn image_alt(cur: &mut LineCursor) -> (alt: Vec<char>)
    requires
        old(cur).wf(),
    ensures
        final(cur).moved_from(old(cur)),
        (alt@, final(cur).pos as int) == image_options(views(old(cur).lines@), old(cur).pos as int, seq![]),
{
    let ghost ls = views(cur.lines@);
    let mut alt: Vec<char> = Vec::new();
    let mut stop = false;
    while !stop && !cur.at_end()
        invariant
            cur.moved_from(old(cur)),
            ls == views(cur.lines@),
            ls.len() == cur.lines@.len(),
            image_options(ls, cur.pos as int, alt@) == image_options(ls, old(cur).pos as int, seq![]),
            stop ==> cur.pos < ls.len() && image_options(ls, cur.pos as int, alt@) == (alt@, cur.pos as int),
        decreases cur.lines.len() - cur.pos, if stop {
            0int
        } else {
            1int
        },
    {
        let l = cur.line();
        assert(l@ == ls[cur.pos as int]);
        if is_blank(&l) || !indented(&l) {
            stop = true;
        } else {
            if let Some(a) = strip_prefix_lit(&trim(&l), ":alt:") {
                alt = trim(&a);
            }
            cur.pos += 1;
        }
    }
    alt
}

/// The end of an indented block quote from `k`: indented lines, and blank
/// lines that an indented line follows.
pub open spec fn quote_end(lines: Seq<Seq<char>>, k: int) -> int
    decreases lines.len() - k,
{
    if k < 0 || k >= lines.len() {
        k
    } else if all_ws(lines[k]) {
        if k + 1 < lines.len() && rst_indented(lines[k + 1]) {
            quote_end(lines, k + 1)
        } else {
            k
        }
    } else if rst_indented(lines[k]) {
        quote_end(lines, k + 1)
    } else {
        k
    }
}

fn parse_blockquote(cur: &mut LineCursor, budget: usize) -> (r: Result<Block, ParseError>)
    requires
        old(cur).wf(),
    ensures
        final(cur).moved_from(old(cur)),
        r matches Err(e) ==> error_is(e, stall_detail()),
        final(cur).pos == quote_end(views(old(cur).lines@), old(cur).pos as int),
        r matches Ok(b) ==> b is BlockQuote,
    decreases budget, 0nat,
{
    let ghost ls = views(cur.lines@);
    let mut inner: Vec<Vec<char>> = Vec::new();
    while !cur.at_end()
        invariant_except_break
            quote_end(ls, old(cur).pos as int) == quote_end(ls, cur.pos as int),
        invariant
            cur.moved_from(old(cur)),
            ls == views(cur.lines@),
        ensures
            quote_end(ls, old(cur).pos as int) == cur.pos,
        decreases cur.lines.len() - cur.pos,
    {
        let l = cur.line();
        assert(l@ == ls[cur.pos as int]);
        if is_blank(&l) {
            if cur.pos + 1 < cur.lines.len() && indented(&cur.lines[cur.pos + 1]) {
                assert(cur.lines@[cur.pos + 1]@ == ls[cur.pos + 1]);
                inner.push(Vec::new());
                cur.pos += 1;
                continue;
            }
            proof {
                if cur.pos + 1 < cur.lines.len() {
                    assert(cur.lines@[cur.pos + 1]@ == ls[cur.pos + 1]);
                }
            }
            break;
        }
        if indented(&l) {
            match strip_prefix_lit(&l, "   ") {
                Some(rest) => inner.push(rest),
                None => inner.push(trim_start(&l)),
            }
            cur.pos += 1;
        } else {
            break;
        }
    }
    let text = join(&inner, "\n");
    if text.len() >= budget {
        return Err(stalled());
    }
    let mut sub = LineCursor::new(&text);
    let mut seen: Vec<char> = Vec::new();
    match parse_blocks(&mut sub, &mut seen, text.len()) {
        Ok(children) => Ok(Block::BlockQuote { children }),
        Err(e) => Err(e),
    }
}

/// The first line from `k` on that is not blank, or the number of lines.
pub open spec fn blank_run_end(lines: Seq<Seq<char>>, k: int) -> int
    decreases lines.len() - k,
{
    if k < 0 || k >= lines.len() {
        lines.len() as int
    } else if all_ws(lines[k]) {
        blank_run_end(lines, k + 1)
    } else {
        k
    }
}

/// Skips blank lines; when a list line of at least `base` indentation follows
/// (`ordered` selects the kind), stays there, else goes back. Returns whether
/// the list goes on.
fn list_goes_on(cur: &mut LineCursor, base: usize, ordered: bool) -> (b: bool)
    requires
        old(cur).wf(),
        old(cur).pos < old(cur).lines.len(),
    ensures
        final(cur).moved_from(old(cur)),
        b ==> final(cur).pos > old(cur).pos,
        !b ==> final(cur).pos == old(cur).pos,
        ({
            let ls = views(old(cur).lines@);
            let q = blank_run_end(ls, old(cur).pos + 1);
            b == (q < ls.len() && indent_width(ls[q]) >= base && (if ordered {
                enum_marker_of(ls[q], None) == false
            } else {
                bullet_start_at(ls, q, ls[q])
            })) && (b ==> final(cur).pos == q)
        }),
{
    let ghost ls = views(cur.lines@);
    let saved = cur.pos;
    cur.pos += 1;
    while !cur.at_end() && is_blank(&cur.lines[cur.pos])
        invariant
            cur.moved_from(old(cur)),
            cur.pos > saved,
            saved == old(cur).pos,
            ls == views(cur.lines@),
            blank_run_end(ls, saved + 1) == blank_run_end(ls, cur.pos as int),
        decreases cur.lines.len() - cur.pos,
    {
        cur.pos += 1;
    }
    assert(blank_run_end(ls, saved + 1) == cur.pos);
    if !cur.at_end() {
        let next = cur.line();
        assert(next@ == ls[cur.pos as int]);
        let kind = if ordered {
            enum_marker(&next).is_some()
        } else {
            is_bullet_start(cur, &next)
        };
        if indent_bytes(&next) >= base && kind {
            return true;
        }
    }
    cur.pos = saved;
    false
}

fn parse_bullet_list(cur: &mut LineCursor, base: usize) -> (b: Block)
    requires
        old(cur).wf(),
    ensures
        final(cur).moved_from(old(cur)),
    decreases old(cur).lines.len() - old(cur).pos, usize::MAX - base, 1nat,
{
    let mut items: Vec<ListItem> = Vec::new();
    while !cur.at_end()
        invariant
            cur.moved_from(old(cur)),
        decreases cur.lines.len() - cur.pos,
    {
        let line = cur.line();
        if is_blank(&line) {
            if list_goes_on(cur, base, false) {
                continue;
            }
            break;
        }
        let indent = indent_bytes(&line);
        if indent > base && (is_bullet_start(cur, &line) || enum_marker(&line).is_some()) {
            let before = cur.pos;
            let sub = if is_bullet_start(cur, &line) {
                parse_bullet_list(cur, indent)
            } else {
                parse_enum_list(cur, indent)
            };
            push_to_last_item(&mut items, sub);
            if cur.pos == before {
                break;
            }
            continue;
        }
        if indent == base && is_bullet_start(cur, &line) {
            let t = trim_start(&line);
            let text = if t.len() >= 2 {
                skip(&t, 2)
            } else {
                Vec::new()
            };
            items.push(paragraph_item(rst_inlines(&text)));
            cur.pos += 1;
            continue;
        }
        if indent > base {
            continue_last_item(&mut items, rst_inlines(&trim(&line)));
            cur.pos += 1;
            continue;
        }
        break;
    }
    Block::UnorderedList { items }
}

fn parse_enum_list(cur: &mut LineCursor, base: usize) -> (b: Block)
    requires
        old(cur).wf(),
    ensures
        final(cur).moved_from(old(cur)),
    decreases old(cur).lines.len() - old(cur).pos, usize::MAX - base, 0nat,
{
    let mut items: Vec<ListItem> = Vec::new();
    let mut start: u32 = 1;
    let mut first = true;
    while !cur.at_end()
        invariant
            cur.moved_from(old(cur)),
        decreases cur.lines.len() - cur.pos,
    {
        let line = cur.line();
        if is_blank(&line) {
            if list_goes_on(cur, base, true) {
                continue;
            }
            break;
        }
        let indent = indent_bytes(&line);
        let marker = enum_marker(&line);
        if indent > base && (is_bullet_start(cur, &line) || marker.is_some()) {
            let before = cur.pos;
            let sub = if is_bullet_start(cur, &line) {
                parse_bullet_list(cur, indent)
            } else {
                parse_enum_list(cur, indent)
            };
            push_to_last_item(&mut items, sub);
            if cur.pos == before {
                break;
            }
            continue;
        }
        if indent == base && marker.is_some() {
            let (num, text) = marker.unwrap();
            if first {
                if !eq_lit(&num, "#") {
                    start = match parse_unsigned(&num, 4294967295) {
                        Some(n) => n as u32,
                        None => 1,
                    };
                }
                first = false;
            }
            items.push(paragraph_item(rst_inlines(&text)));
            cur.pos += 1;
            continue;
        }
        if indent > base {
            continue_last_item(&mut items, rst_inlines(&trim(&line)));
            cur.pos += 1;
            continue;
        }
        break;
    }
    Block::OrderedList { start, items }
}

/// Whether every character of `t` is `c` or a space, and `c` occurs.
fn only_char_and_spaces(t: &Vec<char>, c: char) -> (b: bool)
    ensures
        b ==> forall|i: int| 0 <= i < t@.len() ==> #[trigger] t@[i] == c || t@[i] == ' ',
{
    let mut found = false;
    let mut i: usize = 0;
    while i < t.len()
        invariant
            i <= t.len(),
            forall|j: int| 0 <= j < i ==> #[trigger] t@[j] == c || t@[j] == ' ',
        decreases t.len() - i,
    {
        if t[i] == c {
            found = true;
        } else if t[i] != ' ' {
            return false;
        }
        i += 1;
    }
    found
}

fn is_simple_table_start(line: &Vec<char>) -> (b: bool)
    ensures
        b ==> trim_spec(line@).len() > 0 && (trim_spec(line@)[0] == '=' || trim_spec(line@)[0] == ' '),
{
    let t = trim(line);
    t.len() >= 3 && only_char_and_spaces(&t, '=') && contains_char(&t, ' ')
}

/// The column ranges of a simple table: the runs of `=` of its border line.
/// The end of the run of `c` that starts at `i`.
pub open spec fn run_end(s: Seq<char>, i: int, c: char) -> int
    decreases s.len() - i,
{
    if 0 <= i < s.len() && s[i] == c {
        run_end(s, i + 1, c)
    } else {
        i
    }
}

/// The runs of `=` of `s` from `i` on, as (start, end) pairs.
pub open spec fn eq_runs(s: Seq<char>, i: int) -> Seq<(int, int)>
    decreases s.len() - i, 1int,
{
    if i < 0 || i >= s.len() {
        seq![]
    } else if s[i] == '=' {
        let e = run_end(s, i, '=');
        if i < e <= s.len() {
            seq![(i, e)] + eq_runs(s, e)
        } else {
            seq![]
        }
    } else {
        eq_runs(s, i + 1)
    }
}

proof fn lemma_run_end(s: Seq<char>, i: int, c: char)
    requires
        0 <= i <= s.len(),
    ensures
        i <= run_end(s, i, c) <= s.len(),
        0 <= i < s.len() && s[i] == c ==> run_end(s, i, c) > i,
    decreases s.len() - i,
{
    if i < s.len() && s[i] == c {
        lemma_run_end(s, i + 1, c);
    }
}

/// The ranges as pairs of integers.
pub open spec fn range_ints(r: Seq<(usize, usize)>) -> Seq<(int, int)> {
    r.map_values(|x: (usize, usize)| (x.0 as int, x.1 as int))
}

pub(crate) fn column_ranges(border: &Vec<char>) -> (r: Vec<(usize, usize)>)
    ensures
        forall|k: int| 0 <= k < r@.len() ==> (#[trigger] r@[k]).0 < r@[k].1 <= border@.len(),
        range_ints(r@) == eq_runs(border@, 0),
{
    let mut ranges: Vec<(usize, usize)> = Vec::new();
    let mut i: usize = 0;
    while i < border.len()
        invariant
            i <= border.len(),
            forall|k: int| 0 <= k < ranges@.len() ==> (#[trigger] ranges@[k]).0 < ranges@[k].1 <= border@.len(),
            range_ints(ranges@) + eq_runs(border@, i as int) == eq_runs(border@, 0),
        decreases border.len() - i,
    {
        if border[i] == '=' {
            let start = i;
            proof {
                lemma_run_end(border@, start as int, '=');
            }
            while i < border.len() && border[i] == '='
                invariant
                    start <= i <= border.len(),
                    start < border.len(),
                    border@[start as int] == '=',
                    run_end(border@, start as int, '=') == run_end(border@, i as int, '='),
                decreases border.len() - i,
            {
                i += 1;
            }
            let ghost before = ranges@;
            ranges.push((start, i));
            assert(range_ints(ranges@) =~= range_ints(before) + seq![(start as int, i as int)]);
            assert(range_ints(ranges@) + eq_runs(border@, i as int) =~= range_ints(before) + eq_runs(
                border@,
                start as int,
            ));
        } else {
            i += 1;
        }
    }
    assert(eq_runs(border@, i as int) =~= seq![]);
    assert(range_ints(ranges@) =~= range_ints(ranges@) + eq_runs(border@, i as int));
    ranges
}

/// The cells of a simple-table line: the text under each column range.
pub(crate) fn cells_in_ranges(line: &Vec<char>, ranges: &Vec<(usize, usize)>) -> (cells: Vec<TableCell>)
    ensures
        cells@.len() == ranges@.len(),
{
    let mut cells: Vec<TableCell> = Vec::new();
    let mut k: usize = 0;
    while k < ranges.len()
        invariant
            k <= ranges.len(),
            cells@.len() == k,
        decreases ranges.len() - k,
    {
        let (start, end) = ranges[k];
        let end = if end < line.len() {
            end
        } else {
            line.len()
        };
        let text = if start <= end {
            substring(line, start, end)
        } else {
            Vec::new()
        };
        cells.push(TableCell::new(rst_inlines(&trim(&text))));
        k += 1;
    }
    cells
}

fn parse_simple_table(cur: &mut LineCursor) -> (b: Block)
    requires
        old(cur).wf(),
        old(cur).pos < old(cur).lines.len(),
    ensures
        final(cur).moved_from(old(cur)),
        final(cur).pos > old(cur).pos,
{
    let ranges = column_ranges(&cur.line());
    cur.pos += 1;
    let mut headers: Vec<TableCell> = Vec::new();
    let mut rows: Vec<Vec<TableCell>> = Vec::new();
    let mut in_header = true;
    while !cur.at_end()
        invariant
            cur.moved_from(old(cur)),
            cur.pos > old(cur).pos,
        decreases cur.lines.len() - cur.pos,
    {
        let line = cur.line();
        let t = trim(&line);
        if t.len() > 0 && only_char_and_spaces(&t, '=') {
            cur.pos += 1;
            if in_header {
                in_header = false;
                continue;
            }
            break;
        }
        if only_char_and_spaces(&t, '-') {
            cur.pos += 1;
            continue;
        }
        if t.len() == 0 {
            cur.pos += 1;
            break;
        }
        let cells = cells_in_ranges(&line, &ranges);
        if in_header {
            headers = cells;
        } else {
            rows.push(cells);
        }
        cur.pos += 1;
    }
    let alignments = default_alignments(headers.len());
    Block::Table { headers, alignments, rows }
}

/// The character indices of the `+` of a grid-table border.
pub(crate) fn plus_positions(border: &Vec<char>) -> (r: Vec<usize>)
    ensures
        forall|i: int, j: int| 0 <= i < j < r@.len() ==> r@[i] < r@[j],
        forall|i: int| 0 <= i < r@.len() ==> r@[i] < border@.len(),
        forall|i: int| 0 <= i < r@.len() ==> border@[#[trigger] r@[i] as int] == '+',
        forall|k: int| 0 <= k < border@.len() && border@[k] == '+' ==> exists|i: int|
            0 <= i < r@.len() && #[trigger] r@[i] == k,
        r@ == plus_from(border@, 0),
{
    let mut r: Vec<usize> = Vec::new();
    let mut i: usize = 0;
    while i < border.len()
        invariant
            i <= border.len(),
            r@ + plus_from(border@, i as int) == plus_from(border@, 0),
            forall|a: int, b: int| 0 <= a < b < r@.len() ==> r@[a] < r@[b],
            forall|a: int| 0 <= a < r@.len() ==> r@[a] < i,
            forall|a: int| 0 <= a < r@.len() ==> border@[#[trigger] r@[a] as int] == '+',
            forall|k: int| 0 <= k < i && border@[k] == '+' ==> exists|a: int|
                0 <= a < r@.len() && #[trigger] r@[a] == k,
        decreases border.len() - i,
    {
        let ghost before = r@;
        if border[i] == '+' {
            r.push(i);
            assert(r@[r@.len() - 1] == i);
        }
        assert(r@ + plus_from(border@, i + 1) =~= before + plus_from(border@, i as int));
        proof {
            assert forall|k: int| 0 <= k < i + 1 && border@[k] == '+' implies exists|a: int|
                0 <= a < r@.len() && #[trigger] r@[a] == k by {
                if k == i {
                    assert(r@[r@.len() - 1] == k);
                } else {
                    let a = choose|a: int| 0 <= a < before.len() && #[trigger] before[a] == k;
                    assert(r@[a] == k);
                }
            }
        }
        i += 1;
    }
    assert(r@ =~= r@ + plus_from(border@, i as int));
    r
}

/// The positions of the `+` of `b` from `i` on.
pub open spec fn plus_from(b: Seq<char>, i: int) -> Seq<usize>
    decreases b.len() - i,
{
    if i < 0 || i >= b.len() {
        seq![]
    } else {
        (if b[i] == '+' { seq![i as usize] } else { seq![] }) + plus_from(b, i + 1)
    }
}

/// A line of a grid table: trimmed, it starts with `+` or `|`.
pub open spec fn grid_line(l: Seq<char>) -> bool {
    let t = trim_spec(l);
    t.len() > 0 && (t[0] == '+' || t[0] == '|')
}

/// The end of the run of grid table lines that starts at `k`.
pub open spec fn grid_run_end(lines: Seq<Seq<char>>, k: int) -> int
    decreases lines.len() - k,
{
    if k < 0 || k >= lines.len() {
        lines.len() as int
    } else if grid_line(lines[k]) {
        grid_run_end(lines, k + 1)
    } else {
        k
    }
}

/// Reads a grid table from the run of grid lines at the cursor: fewer than
/// three such lines are no table, and the cursor stays; otherwise the cursor
/// moves past them and the table is what `grid_table` makes of them.
fn try_parse_grid_table(cur: &mut LineCursor) -> (r: Option<Block>)
    requires
        old(cur).wf(),
        old(cur).pos < old(cur).lines.len(),
    ensures
        final(cur).moved_from(old(cur)),
        r is Some ==> final(cur).pos > old(cur).pos,
        ({
            let ls = views(old(cur).lines@);
            let e = grid_run_end(ls, old(cur).pos as int);
            if e - old(cur).pos < 3 {
                r is None && final(cur).pos == old(cur).pos
            } else {
                final(cur).pos == e && (r matches Some(b) ==> b is Table) && (r is Some) == has_columns(
                    ls[old(cur).pos as int],
                ) && match grid_model(ls.subrange(old(cur).pos as int, e)) {
                    None => r is None,
                    Some(m) => r matches Some(b) && table_is(b, m),
                }
            }
        }),
{
    let ghost ls = views(cur.lines@);
    let start = cur.pos;
    let mut table_lines: Vec<Vec<char>> = Vec::new();
    let mut stop = false;
    while !stop && !cur.at_end()
        invariant
            cur.moved_from(old(cur)),
            ls == views(cur.lines@),
            ls.len() == cur.lines@.len(),
            start == old(cur).pos,
            cur.pos == start + table_lines@.len(),
            forall|k: int| 0 <= k < table_lines@.len() ==> (#[trigger] table_lines@[k])@ == ls[start + k],
            grid_run_end(ls, start as int) == grid_run_end(ls, cur.pos as int),
            stop ==> cur.pos < ls.len() && grid_run_end(ls, cur.pos as int) == cur.pos,
        decreases cur.lines.len() - cur.pos, if stop {
            0int
        } else {
            1int
        },
    {
        let l = cur.line();
        assert(l@ == ls[cur.pos as int]);
        let t = trim(&l);
        if first_is(&t, '+') || first_is(&t, '|') {
            table_lines.push(l);
            cur.pos += 1;
        } else {
            stop = true;
        }
    }
    if table_lines.len() < 3 {
        cur.pos = start;
        return None;
    }
    assert(views(table_lines@) =~= ls.subrange(start as int, cur.pos as int));
    grid_table(&table_lines)
}

/// Whether the text of `line` between `start` and `end` (both inside the
/// line) is open: blank, or with no `-` and no `=`.
fn segment_open(line: &Vec<char>, start: usize, end: usize) -> (b: bool)
    ensures
        b == seg_open(line@, start as int, end as int),
{
    if start < line.len() && end <= line.len() && start <= end {
        let seg = substring(line, start, end);
        is_blank(&seg) || (!contains_char(&seg, '-') && !contains_char(&seg, '='))
    } else {
        false
    }
}

/// The index after `x` (a position inside a line, so never the largest).
fn succ(x: usize) -> (r: usize)
    ensures
        x < usize::MAX ==> r == x + 1,
        r == succ_spec(x),
{
    if x < usize::MAX {
        x + 1
    } else {
        x
    }
}

/// The last separator index below `limit`, or 0.
fn last_sep_before(seps: &Vec<usize>, limit: usize) -> (r: Option<usize>)
    ensures
        r == sep_before(seps@, limit, seps@.len() as int),
{
    let mut k = seps.len();
    while k > 0
        invariant
            k <= seps.len(),
            sep_before(seps@, limit, seps@.len() as int) == sep_before(seps@, limit, k as int),
        decreases k,
    {
        k -= 1;
        if seps[k] < limit {
            return Some(seps[k]);
        }
    }
    None
}

/// A separator line: trimmed, it starts with `+`.
pub open spec fn sep_line(l: Seq<char>) -> bool {
    let t = trim_spec(l);
    t.len() > 0 && t[0] == '+'
}

/// A row line: trimmed, it starts with `|`.
pub open spec fn row_line(l: Seq<char>) -> bool {
    let t = trim_spec(l);
    t.len() > 0 && t[0] == '|'
}

/// The indices from `i` on of the separator lines (`sep`) or of the row
/// lines.
pub open spec fn line_indices(ls: Seq<Seq<char>>, i: int, sep: bool) -> Seq<usize>
    decreases ls.len() - i,
{
    if i < 0 || i >= ls.len() {
        seq![]
    } else {
        (if (sep && sep_line(ls[i])) || (!sep && !sep_line(ls[i]) && row_line(ls[i])) {
            seq![i as usize]
        } else {
            seq![]
        }) + line_indices(ls, i + 1, sep)
    }
}

/// The last separator line from `i` on that holds `=`, or `h`.
pub open spec fn header_rule(ls: Seq<Seq<char>>, i: int, h: Option<usize>) -> Option<usize>
    decreases ls.len() - i,
{
    if i < 0 || i >= ls.len() {
        h
    } else {
        header_rule(ls, i + 1, if sep_line(ls[i]) && ls[i].contains('=') { Some(i as usize) } else { h })
    }
}

/// The row lines from the `d`-th on that lie between the lines `lo` and `hi`.
pub open spec fn lines_between(data: Seq<usize>, lo: usize, hi: usize, d: int) -> Seq<usize>
    decreases data.len() - d,
{
    if d < 0 || d >= data.len() {
        seq![]
    } else {
        (if lo < data[d] && data[d] < hi { seq![data[d]] } else { seq![] }) + lines_between(data, lo, hi, d + 1)
    }
}

/// The rows from the `s`-th separator on: the row lines between each two
/// consecutive separators, where there are any.
pub open spec fn row_groups(seps: Seq<usize>, data: Seq<usize>, s: int) -> Seq<Seq<usize>>
    decreases seps.len() - s,
{
    if s < 0 || s + 1 >= seps.len() {
        seq![]
    } else {
        let gp = lines_between(data, seps[s], seps[s + 1], 0);
        (if gp.len() > 0 { seq![gp] } else { seq![] }) + row_groups(seps, data, s + 1)
    }
}

/// The last separator among the first `k` below line `limit`.
pub open spec fn sep_before(seps: Seq<usize>, limit: usize, k: int) -> Option<usize>
    decreases k,
{
    if k <= 0 || k > seps.len() {
        None
    } else if seps[k - 1] < limit {
        Some(seps[k - 1])
    } else {
        sep_before(seps, limit, k - 1)
    }
}

/// The first separator from the `k`-th on after line `last`.
pub open spec fn sep_after(seps: Seq<usize>, last: usize, k: int) -> Option<usize>
    decreases seps.len() - k,
{
    if k < 0 || k >= seps.len() {
        None
    } else if seps[k] > last {
        Some(seps[k])
    } else {
        sep_after(seps, last, k + 1)
    }
}

/// The index after `x`, where it fits.
pub open spec fn succ_spec(x: usize) -> usize {
    if x < usize::MAX { (x + 1) as usize } else { x }
}

/// The text of `line` between `start` and `end` is open: blank, or with no
/// `-` and no `=`; false where the range is not inside the line.
pub open spec fn seg_open(line: Seq<char>, start: int, end: int) -> bool {
    if 0 <= start < line.len() && end <= line.len() && start <= end {
        let seg = line.subrange(start, end);
        all_ws(seg) || (!seg.contains('-') && !seg.contains('='))
    } else {
        false
    }
}

/// Whether each column boundary starts a cell in a row: a `+` at it in the
/// separator above, unless (for an inner boundary) the row's first line has
/// no `|` there.
pub open spec fn boundary_flags(cols: Seq<usize>, above: Seq<char>, first: Seq<char>) -> Seq<bool> {
    Seq::new(
        cols.len(),
        |c: int| {
            let pos = cols[c] as int;
            let plus = pos < above.len() && above[pos] == '+';
            if c > 0 && c + 1 < cols.len() && plus && pos < first.len() && first[pos] != '|' {
                false
            } else {
                plus
            }
        },
    )
}

/// The column span of a cell at `col`: up to the next boundary that starts a
/// cell.
pub open spec fn span_right(hp: Seq<bool>, nc: int, col: int, c: int) -> int
    decreases nc - col - c,
{
    if col + c < nc && !hp[col + c] { span_right(hp, nc, col, c + 1) } else { c }
}

/// The row span of a cell at column `col`, counted `r` so far: it grows over
/// each following row whose separator above is open in that column.
pub open spec fn span_down(
    ls: Seq<Seq<char>>,
    seps: Seq<usize>,
    groups: Seq<Seq<usize>>,
    cols: Seq<usize>,
    col: int,
    next: int,
    r: u32,
) -> u32
    decreases groups.len() - next,
{
    if next < 0 || next >= groups.len() {
        r
    } else {
        let open = match sep_before(seps, groups[next][0], seps.len() as int) {
            Some(n) => n < ls.len() && seg_open(ls[n as int], succ_spec(cols[col]) as int, cols[col + 1] as int),
            None => false,
        };
        if !open { r } else { span_down(ls, seps, groups, cols, col, next + 1, if r < u32::MAX { (r + 1) as u32 } else { r }) }
    }
}

/// The grid with the positions that a cell at row `g`, column `col` covers
/// marked in the rows below it, from the `r`-th on, over `cs` columns.
pub open spec fn mark_below(occ: Seq<Seq<bool>>, g: int, col: int, cs: int, rs: int, r: int) -> Seq<Seq<bool>>
    decreases rs - r,
{
    if r < 1 || r >= rs || r >= occ.len() - g {
        occ
    } else {
        mark_below(crate::formats::common::mark_cols(occ, g + r, col, cs, usize::MAX as int, 0), g, col, cs, rs, r + 1)
    }
}

/// The cells (trimmed text, column span, row span) of row `g` from column
/// `col` on, and the grid after them: a column that a row span from above
/// covers is skipped; a cell reaches to the next boundary that starts a cell
/// and down as far as its row span, and its text is the first line's text
/// between its boundaries.
pub open spec fn grid_row_cells(
    ls: Seq<Seq<char>>,
    seps: Seq<usize>,
    groups: Seq<Seq<usize>>,
    cols: Seq<usize>,
    hp: Seq<bool>,
    rsc: Seq<bool>,
    dl: Seq<char>,
    g: int,
    col: int,
    occ: Seq<Seq<bool>>,
    cells: Seq<(Seq<char>, u32, u32)>,
) -> (Seq<(Seq<char>, u32, u32)>, Seq<Seq<bool>>)
    decreases cols.len() - 1 - col,
{
    let nc = cols.len() - 1;
    if col < 0 || col >= nc {
        (cells, occ)
    } else if crate::formats::common::grid_at(occ, g, col) {
        grid_row_cells(ls, seps, groups, cols, hp, rsc, dl, g, col + 1, occ, cells)
    } else {
        let cspan = span_right(hp, nc, col, 1);
        let rspan = if rsc[col] { span_down(ls, seps, groups, cols, col, g + 1, 1) } else { 1u32 };
        let start = succ_spec(cols[col]) as int;
        let end0 = cols[col + cspan] as int;
        let end = if end0 < dl.len() { end0 } else { dl.len() as int };
        let text = if start <= end { dl.subrange(start, end) } else { seq![] };
        if 1 <= cspan <= nc - col {
            grid_row_cells(
                ls,
                seps,
                groups,
                cols,
                hp,
                rsc,
                dl,
                g,
                col + cspan,
                mark_below(occ, g, col, cspan, rspan as int, 1),
                cells.push((trim_spec(text), cspan as u32, rspan)),
            )
        } else {
            (cells, occ)
        }
    }
}

/// The cells of row `g`, and the grid after them.
pub open spec fn grid_row(
    ls: Seq<Seq<char>>,
    seps: Seq<usize>,
    groups: Seq<Seq<usize>>,
    cols: Seq<usize>,
    g: int,
    occ: Seq<Seq<bool>>,
) -> (Seq<(Seq<char>, u32, u32)>, Seq<Seq<bool>>) {
    let first = groups[g][0];
    let last = groups[g].last();
    let above = match sep_before(seps, first, seps.len() as int) {
        Some(a) => a,
        None => 0,
    };
    let below = sep_after(seps, last, 0);
    let sa = if above < ls.len() { ls[above as int] } else { seq![] };
    let dl = ls[first as int];
    let hp = boundary_flags(cols, sa, dl);
    let rsc = Seq::new(
        (cols.len() - 1) as nat,
        |c: int| match below {
            Some(b) => b < ls.len() && seg_open(ls[b as int], succ_spec(cols[c]) as int, cols[c + 1] as int),
            None => false,
        },
    );
    grid_row_cells(ls, seps, groups, cols, hp, rsc, dl, g, 0, occ, seq![])
}

/// The rows from the `g`-th on.
pub open spec fn grid_rows_from(
    ls: Seq<Seq<char>>,
    seps: Seq<usize>,
    groups: Seq<Seq<usize>>,
    cols: Seq<usize>,
    g: int,
    occ: Seq<Seq<bool>>,
) -> Seq<Seq<(Seq<char>, u32, u32)>>
    decreases groups.len() - g,
{
    if g < 0 || g >= groups.len() {
        seq![]
    } else {
        let t = grid_row(ls, seps, groups, cols, g, occ);
        seq![t.0] + grid_rows_from(ls, seps, groups, cols, g + 1, t.1)
    }
}

/// The number of rows from the `x`-th on that start above line `h`.
pub open spec fn rows_above(groups: Seq<Seq<usize>>, h: usize, x: int) -> nat
    decreases groups.len() - x,
{
    if x < 0 || x >= groups.len() {
        0
    } else {
        (if groups[x][0] < h { 1nat } else { 0nat }) + rows_above(groups, h, x + 1)
    }
}

/// What the lines of a grid table make: `None` where the first line has
/// fewer than two `+`; otherwise the number of columns, the first row (the
/// header row), and the data rows, which start after the rows above the `=`
/// separator (after the first row where there is none, or where no row would
/// be left). A cell is its trimmed text and its spans.
pub open spec fn grid_model(ls: Seq<Seq<char>>) -> Option<(nat, Seq<(Seq<char>, u32, u32)>, Seq<Seq<(Seq<char>, u32, u32)>>)> {
    let cols = plus_from(ls[0], 0);
    if cols.len() <= 1 {
        None
    } else {
        let nc = (cols.len() - 1) as nat;
        let seps = line_indices(ls, 0, true);
        let data = line_indices(ls, 0, false);
        let groups = row_groups(seps, data, 0);
        let all = grid_rows_from(ls, seps, groups, cols, 0, crate::formats::common::empty_grid(groups.len(), nc));
        let hc = match header_rule(ls, 0, None) {
            Some(h) => rows_above(groups, h, 0),
            None => 0,
        };
        if all.len() == 0 {
            Some((nc, seq![], seq![]))
        } else {
            let split = if hc > 0 && all.len() > hc { hc as int } else { 1 };
            Some((nc, all[0], all.subrange(split, all.len() as int)))
        }
    }
}

/// `cell` is what the model cell `m` describes: its spans, and its text read
/// as inline markup (text runs merged, text without markup read as itself).
pub open spec fn cell_is(cell: TableCell, m: (Seq<char>, u32, u32)) -> bool {
    &&& cell.colspan == m.1
    &&& cell.rowspan == m.2
    &&& no_adjacent_text(cell.content@)
    &&& plain_rst(m.0) ==> if m.0.len() == 0 {
        cell.content@.len() == 0
    } else {
        cell.content@.len() == 1 && cell.content@[0] is Text && text_of_inline(cell.content@[0]) == m.0
    }
}

/// Each cell is what its model cell describes.
pub open spec fn cells_are(cells: Seq<TableCell>, m: Seq<(Seq<char>, u32, u32)>) -> bool {
    cells.len() == m.len() && forall|i: int| 0 <= i < m.len() ==> #[trigger] cell_is(cells[i], m[i])
}

/// Each row is what its model row describes.
pub open spec fn rows_are(rows: Seq<Vec<TableCell>>, m: Seq<Seq<(Seq<char>, u32, u32)>>) -> bool {
    rows.len() == m.len() && forall|i: int| 0 <= i < m.len() ==> #[trigger] cells_are(rows[i]@, m[i])
}

/// `b` is the table that the model describes.
pub open spec fn table_is(b: Block, m: (nat, Seq<(Seq<char>, u32, u32)>, Seq<Seq<(Seq<char>, u32, u32)>>)) -> bool {
    match b {
        Block::Table { headers, alignments, rows } => {
            &&& cells_are(headers@, m.1)
            &&& rows_are(rows@, m.2)
            &&& alignments@.len() == m.0
            &&& forall|i: int| 0 <= i < m.0 ==> alignments@[i] == crate::ast::ColumnAlignment::Default
        },
        _ => false,
    }
}

/// The border line has at least two `+`, so at least one column.
pub open spec fn has_columns(border: Seq<char>) -> bool {
    exists|i: int, j: int| 0 <= i < j < border.len() && #[trigger] border[i] == '+' && #[trigger] border[j] == '+'
}

/// The rows of row-line indices.
pub open spec fn groups_view(g: Seq<Vec<usize>>) -> Seq<Seq<usize>> {
    Seq::new(g.len(), |i: int| g[i]@)
}

/// The table that the lines of a grid table describe (see `grid_model`):
/// columns at the `+` of the top border, rows between separator lines, a
/// column span where a boundary has no `+` or `|`, a row span where the
/// separator below a cell is open; the rows above a `=` separator are the
/// header.
pub(crate) fn grid_table(lines: &Vec<Vec<char>>) -> (r: Option<Block>)
    requires
        lines@.len() >= 1,
    ensures
        r matches Some(b) ==> b is Table,
        (r is Some) == has_columns(lines@[0]@),
        match grid_model(views(lines@)) {
            None => r is None,
            Some(m) => r matches Some(b) && table_is(b, m),
        },
{
    let ghost ls = views(lines@);
    assert(ls[0] == lines@[0]@);
    let cols = plus_positions(&lines[0]);
    if cols.len() <= 1 {
        proof {
            assert forall|i: int, j: int| 0 <= i < j < lines@[0]@.len() && #[trigger] lines@[0]@[i] == '+'
                && #[trigger] lines@[0]@[j] == '+' implies false by {
                let a = choose|a: int| 0 <= a < cols@.len() && #[trigger] cols@[a] == i;
                let b = choose|b: int| 0 <= b < cols@.len() && #[trigger] cols@[b] == j;
                assert(a == b);
            }
        }
        return None;
    }
    assert(lines@[0]@[cols@[0] as int] == '+' && lines@[0]@[cols@[1] as int] == '+');
    assert(has_columns(lines@[0]@));
    let num_cols = cols.len() - 1;
    let mut seps: Vec<usize> = Vec::new();
    let mut data: Vec<usize> = Vec::new();
    let mut header_sep: Option<usize> = None;
    let mut i: usize = 0;
    while i < lines.len()
        invariant
            i <= lines.len(),
            ls == views(lines@),
            forall|k: int| 0 <= k < seps@.len() ==> (#[trigger] seps@[k]) < lines@.len(),
            forall|k: int| 0 <= k < data@.len() ==> (#[trigger] data@[k]) < lines@.len(),
            forall|k: int| 0 <= k < seps@.len() ==> (#[trigger] seps@[k]) < i,
            forall|a: int, b: int| 0 <= a < b < seps@.len() ==> seps@[a] < seps@[b],
            seps@ + line_indices(ls, i as int, true) == line_indices(ls, 0, true),
            data@ + line_indices(ls, i as int, false) == line_indices(ls, 0, false),
            header_rule(ls, i as int, header_sep) == header_rule(ls, 0, None),
        decreases lines.len() - i,
    {
        let ghost s0 = seps@;
        let ghost d0 = data@;
        let t = trim(&lines[i]);
        assert(lines@[i as int]@ == ls[i as int]);
        if first_is(&t, '+') {
            seps.push(i);
            if contains_char(&lines[i], '=') {
                header_sep = Some(i);
            }
        } else if first_is(&t, '|') {
            data.push(i);
        }
        assert(seps@ + line_indices(ls, i + 1, true) =~= s0 + line_indices(ls, i as int, true));
        assert(data@ + line_indices(ls, i + 1, false) =~= d0 + line_indices(ls, i as int, false));
        i += 1;
    }
    assert(seps@ =~= seps@ + line_indices(ls, i as int, true));
    assert(data@ =~= data@ + line_indices(ls, i as int, false));
    let mut groups: Vec<Vec<usize>> = Vec::new();
    let mut s: usize = 0;
    while s < seps.len() && seps.len() - s > 1
        invariant
            forall|g: int| 0 <= g < groups@.len() ==> (#[trigger] groups@[g])@.len() > 0,
            forall|g: int, k: int| 0 <= g < groups@.len() && 0 <= k < groups@[g]@.len() ==> (
            #[trigger] groups@[g]@[k]) < lines@.len(),
            forall|k: int| 0 <= k < data@.len() ==> (#[trigger] data@[k]) < lines@.len(),
            groups_view(groups@) + row_groups(seps@, data@, s as int) == row_groups(seps@, data@, 0),
        decreases seps.len() - s,
    {
        let lo = seps[s];
        let hi = seps[s + 1];
        let mut group: Vec<usize> = Vec::new();
        let mut d: usize = 0;
        while d < data.len()
            invariant
                d <= data.len(),
                forall|k: int| 0 <= k < group@.len() ==> (#[trigger] group@[k]) < lines@.len(),
                forall|k: int| 0 <= k < data@.len() ==> (#[trigger] data@[k]) < lines@.len(),
                group@ + lines_between(data@, lo, hi, d as int) == lines_between(data@, lo, hi, 0),
            decreases data.len() - d,
        {
            let ghost g0 = group@;
            if data[d] > lo && data[d] < hi {
                group.push(data[d]);
            }
            assert(group@ + lines_between(data@, lo, hi, d + 1) =~= g0 + lines_between(data@, lo, hi, d as int));
            d += 1;
        }
        assert(group@ =~= group@ + lines_between(data@, lo, hi, d as int));
        let ghost gb = groups@;
        if group.len() > 0 {
            groups.push(group);
        }
        assert(groups_view(groups@) + row_groups(seps@, data@, s + 1) =~= groups_view(gb) + row_groups(
            seps@,
            data@,
            s as int,
        ));
        s += 1;
    }
    assert(groups_view(groups@) =~= groups_view(groups@) + row_groups(seps@, data@, s as int));
    let ghost gv = groups_view(groups@);
    let ghost sv = seps@;
    let ghost cv = cols@;
    let ghost full = grid_rows_from(ls, sv, gv, cv, 0, crate::formats::common::empty_grid(gv.len(), num_cols as nat));
    let ghost mut mrows: Seq<Seq<(Seq<char>, u32, u32)>> = seq![];
    let mut all_rows: Vec<Vec<TableCell>> = Vec::new();
    let mut occupied = bool_grid(groups.len(), num_cols);
    let mut g: usize = 0;
    while g < groups.len()
        invariant
            g <= groups.len(),
            occupied@.len() == groups@.len(),
            num_cols + 1 == cols@.len(),
            forall|a: int, b: int| 0 <= a < b < cols@.len() ==> cols@[a] < cols@[b],
            forall|x: int| 0 <= x < groups@.len() ==> (#[trigger] groups@[x])@.len() > 0,
            forall|x: int, k: int| 0 <= x < groups@.len() && 0 <= k < groups@[x]@.len() ==> (
            #[trigger] groups@[x]@[k]) < lines@.len(),
            ls == views(lines@),
            gv == groups_view(groups@),
            sv == seps@,
            cv == cols@,
            mrows + grid_rows_from(ls, sv, gv, cv, g as int, crate::formats::common::grid_view(occupied@)) == full,
            rows_are(all_rows@, mrows),
        decreases groups.len() - g,
    {
        let group = &groups[g];
        assert(group@ == gv[g as int]);
        let first = group[0];
        let last = group[group.len() - 1];
        let above = match last_sep_before(&seps, first) {
            Some(a) => a,
            None => 0,
        };
        let mut below: Option<usize> = None;
        let mut k: usize = 0;
        while k < seps.len()
            invariant_except_break
                k <= seps.len(),
                below is None,
                sep_after(seps@, last, 0) == sep_after(seps@, last, k as int),
            ensures
                below == sep_after(seps@, last, 0),
            decreases seps.len() - k,
        {
            if seps[k] > last {
                below = Some(seps[k]);
                break;
            }
            k += 1;
        }
        let sep_above = if above < lines.len() {
            copy(&lines[above])
        } else {
            Vec::new()
        };
        let data_line = copy(&lines[first]);
        assert(data_line@ == ls[first as int]);
        assert(above < lines.len() ==> sep_above@ == ls[above as int]);
        let ghost hp_spec = boundary_flags(cv, sep_above@, data_line@);
        let mut has_plus: Vec<bool> = Vec::new();
        let mut c: usize = 0;
        while c < cols.len()
            invariant
                c <= cols.len(),
                has_plus@.len() == c,
                has_plus@ == hp_spec.subrange(0, c as int),
                cv == cols@,
                hp_spec == boundary_flags(cv, sep_above@, data_line@),
            decreases cols.len() - c,
        {
            let pos = cols[c];
            let mut plus = pos < sep_above.len() && sep_above[pos] == '+';
            if c > 0 && c + 1 < cols.len() && plus && pos < data_line.len() && data_line[pos] != '|' {
                plus = false;
            }
            has_plus.push(plus);
            c += 1;
            assert(has_plus@ =~= hp_spec.subrange(0, c as int));
        }
        assert(has_plus@ =~= hp_spec);
        let ghost rsc_spec = Seq::new(
            (cv.len() - 1) as nat,
            |c: int| match below {
                Some(b) => b < ls.len() && seg_open(ls[b as int], succ_spec(cv[c]) as int, cv[c + 1] as int),
                None => false,
            },
        );
        let mut rowspan_col: Vec<bool> = Vec::new();
        let mut c: usize = 0;
        while c < num_cols
            invariant
                c <= num_cols,
                num_cols + 1 == cols@.len(),
                forall|a: int, b: int| 0 <= a < b < cols@.len() ==> cols@[a] < cols@[b],
                rowspan_col@.len() == c,
                rowspan_col@ == rsc_spec.subrange(0, c as int),
                cv == cols@,
                ls == views(lines@),
                rsc_spec == Seq::new(
                    (cv.len() - 1) as nat,
                    |c: int| match below {
                        Some(b) => b < ls.len() && seg_open(ls[b as int], succ_spec(cv[c]) as int, cv[c + 1] as int),
                        None => false,
                    },
                ),
            decreases num_cols - c,
        {
            let open = match below {
                Some(b) => b < lines.len() && segment_open(&lines[b], succ(cols[c]), cols[c + 1]),
                None => false,
            };
            proof {
                if let Some(b) = below {
                    if b < lines.len() {
                        assert(lines@[b as int]@ == ls[b as int]);
                    }
                }
            }
            rowspan_col.push(open);
            c += 1;
            assert(rowspan_col@ =~= rsc_spec.subrange(0, c as int));
        }
        assert(rowspan_col@ =~= rsc_spec);
        let ghost occ0 = crate::formats::common::grid_view(occupied@);
        let ghost row_target = grid_row(ls, sv, gv, cv, g as int, occ0);
        let ghost mut cm: Seq<(Seq<char>, u32, u32)> = seq![];
        let g1 = g + 1;
        let mut cells: Vec<TableCell> = Vec::new();
        let mut col: usize = 0;
        while col < num_cols
            invariant
                num_cols + 1 == cols@.len(),
                has_plus@.len() == cols@.len(),
                rowspan_col@.len() == num_cols,
                occupied@.len() == groups@.len(),
                g < groups@.len(),
                g1 == g + 1,
                forall|a: int, b: int| 0 <= a < b < cols@.len() ==> cols@[a] < cols@[b],
                forall|x: int| 0 <= x < groups@.len() ==> (#[trigger] groups@[x])@.len() > 0,
                forall|x: int, k: int| 0 <= x < groups@.len() && 0 <= k < groups@[x]@.len() ==> (
                #[trigger] groups@[x]@[k]) < lines@.len(),
                ls == views(lines@),
                gv == groups_view(groups@),
                sv == seps@,
                cv == cols@,
                col <= num_cols,
                grid_row_cells(ls, sv, gv, cv, has_plus@, rowspan_col@, data_line@, g as int, col as int, crate::formats::common::grid_view(occupied@), cm) == row_target,
                cells_are(cells@, cm),
            decreases num_cols - col,
        {
            if grid_get(&occupied, g, col) {
                col += 1;
                continue;
            }
            let mut cspan: usize = 1;
            while col + cspan < num_cols && !has_plus[col + cspan]
                invariant
                    col < num_cols,
                    1 <= cspan <= num_cols - col,
                    has_plus@.len() == num_cols + 1,
                    span_right(has_plus@, num_cols as int, col as int, 1) == span_right(has_plus@, num_cols as int, col as int, cspan as int),
                decreases num_cols - col - cspan,
            {
                cspan += 1;
            }
            let mut rspan: u32 = 1;
            if rowspan_col[col] {
                let mut next = g1;
                while next < groups.len()
                    invariant_except_break
                        span_down(ls, sv, gv, cv, col as int, g1 as int, 1) == span_down(ls, sv, gv, cv, col as int, next as int, rspan),
                    invariant
                        col < num_cols,
                        g1 <= next,
                        num_cols + 1 == cols@.len(),
                        forall|a: int, b: int| 0 <= a < b < cols@.len() ==> cols@[a] < cols@[b],
                        forall|x: int| 0 <= x < groups@.len() ==> (#[trigger] groups@[x])@.len() > 0,
                        ls == views(lines@),
                        gv == groups_view(groups@),
                        sv == seps@,
                        cv == cols@,
                    ensures
                        rspan == span_down(ls, sv, gv, cv, col as int, g1 as int, 1),
                    decreases groups.len() - next,
                {
                    assert(groups@[next as int]@ == gv[next as int]);
                    let ns = last_sep_before(&seps, groups[next][0]);
                    let open = match ns {
                        Some(n) => n < lines.len() && segment_open(&lines[n], succ(cols[col]), cols[col + 1]),
                        None => false,
                    };
                    proof {
                        if let Some(n) = ns {
                            if n < lines.len() {
                                assert(lines@[n as int]@ == ls[n as int]);
                            }
                        }
                    }
                    if !open {
                        break;
                    }
                    if rspan < u32::MAX {
                        rspan += 1;
                    }
                    next += 1;
                }
            }
            let start = succ(cols[col]);
            let end = cols[col + cspan];
            let end = if end < data_line.len() {
                end
            } else {
                data_line.len()
            };
            let text = if start <= end {
                substring(&data_line, start, end)
            } else {
                Vec::new()
            };
            #[verifier::truncate]
            let cs32 = cspan as u32;
            let tt = trim(&text);
            let cell = TableCell::with_span(rst_inlines(&tt), cs32, rspan);
            let ghost cell_m = (tt@, cs32, rspan);
            assert(cell_is(cell, cell_m));
            let ghost cells0 = cells@;
            cells.push(cell);
            proof {
                cm = cm.push(cell_m);
                assert forall|q: int| 0 <= q < cm.len() implies #[trigger] cell_is(cells@[q], cm[q]) by {
                    if q < cm.len() - 1 {
                        assert(cells@[q] == cells0[q]);
                    }
                }
            }
            let ghost occ_before = crate::formats::common::grid_view(occupied@);
            let mut r: usize = 1;
            while r < rspan as usize && r < groups.len() - g
                invariant_except_break
                    mark_below(crate::formats::common::grid_view(occupied@), g as int, col as int, cspan as int, rspan as int, r as int)
                        == mark_below(occ_before, g as int, col as int, cspan as int, rspan as int, 1),
                invariant
                    occupied@.len() == groups@.len(),
                    g < groups@.len(),
                    col < num_cols,
                    cspan <= num_cols - col,
                    1 <= r,
                ensures
                    crate::formats::common::grid_view(occupied@) == mark_below(occ_before, g as int, col as int, cspan as int, rspan as int, 1),
                decreases groups.len() - g - r,
            {
                let target = g + r;
                let ghost gr = crate::formats::common::grid_view(occupied@);
                let mut c2: usize = 0;
                while c2 < cspan
                    invariant
                        occupied@.len() == groups@.len(),
                        col < num_cols,
                        c2 <= cspan <= num_cols - col,
                        crate::formats::common::mark_cols(crate::formats::common::grid_view(occupied@), target as int, col as int, cspan as int, usize::MAX as int, c2 as int)
                            == crate::formats::common::mark_cols(gr, target as int, col as int, cspan as int, usize::MAX as int, 0),
                    decreases cspan - c2,
                {
                    crate::formats::common::grid_mark(&mut occupied, target, col + c2);
                    c2 += 1;
                }
                r += 1;
            }
            col += cspan;
        }
        proof {
            mrows = mrows.push(cm);
        }
        let ghost rows0 = all_rows@;
        all_rows.push(cells);
        proof {
            assert forall|q: int| 0 <= q < mrows.len() implies #[trigger] cells_are(all_rows@[q]@, mrows[q]) by {
                if q < mrows.len() - 1 {
                    assert(all_rows@[q] == rows0[q]);
                }
            }
        }
        g += 1;
    }
    assert(mrows =~= full);
    let header_count = match header_sep {
        Some(h) => {
            let mut n: usize = 0;
            let mut x: usize = 0;
            while x < groups.len()
                invariant
                    x <= groups.len(),
                    n <= x,
                    forall|y: int| 0 <= y < groups@.len() ==> (#[trigger] groups@[y])@.len() > 0,
                    gv == groups_view(groups@),
                    n + rows_above(gv, h, x as int) == rows_above(gv, h, 0),
                decreases groups.len() - x,
            {
                assert(groups@[x as int]@ == gv[x as int]);
                if groups[x][0] < h {
                    n += 1;
                }
                x += 1;
            }
            n
        },
        None => 0,
    };
    let alignments = default_alignments(num_cols);
    if all_rows.len() == 0 {
        return Some(Block::Table { headers: Vec::new(), alignments, rows: Vec::new() });
    }
    let split = if header_count > 0 && all_rows.len() > header_count {
        header_count
    } else {
        1
    };
    let ghost before_split = all_rows@;
    let body = all_rows.split_off(split);
    let headers = all_rows.swap_remove(0);
    proof {
        assert(headers == before_split[0]);
        assert(body@ == before_split.subrange(split as int, before_split.len() as int));
        assert forall|q: int| 0 <= q < body@.len() implies #[trigger] cells_are(body@[q]@, full.subrange(split as int, full.len() as int)[q]) by {
            assert(body@[q] == before_split[split + q]);
        }
    }
    Some(Block::Table { headers, alignments, rows: body })
}

fn parse_paragraph(cur: &mut LineCursor) -> (b: Block)
    requires
        old(cur).wf(),
    ensures
        final(cur).moved_from(old(cur)),
        old(cur).pos + 1 == old(cur).lines@.len() && plain_line(old(cur).lines@[old(cur).pos as int]@)
            ==> final(cur).pos == old(cur).lines@.len(),
        old(cur).pos + 1 == old(cur).lines@.len() && plain_line(old(cur).lines@[old(cur).pos as int]@)
            ==> (b matches Block::Paragraph { content } && reads_as_plain_text(content@, old(cur).lines@[old(cur).pos as int]@)),
{
    let ghost single = old(cur).pos + 1 == old(cur).lines@.len() && plain_line(old(cur).lines@[old(cur).pos as int]@);
    let ghost l0 = if old(cur).pos < old(cur).lines@.len() {
        old(cur).lines@[old(cur).pos as int]@
    } else {
        Seq::<char>::empty()
    };
    let mut ls: Vec<Vec<char>> = Vec::new();
    while !cur.at_end()
        invariant
            cur.moved_from(old(cur)),
            single == (old(cur).pos + 1 == old(cur).lines@.len() && plain_line(old(cur).lines@[old(cur).pos as int]@)),
            single ==> l0 == old(cur).lines@[old(cur).pos as int]@,
            single ==> (cur.pos == old(cur).pos && ls@.len() == 0) || (cur.pos == old(cur).pos + 1 && views(ls@) == seq![l0]),
        ensures
            single ==> cur.pos == old(cur).pos + 1 && views(ls@) == seq![l0],
        decreases cur.lines.len() - cur.pos,
    {
        let line = cur.line();
        proof {
            if single {
                lemma_plain_line(l0);
                assert(!transition_at(views(cur.lines@), cur.pos as int, l0));
            }
        }
        let t = trim(&line);
        if t.len() == 0 || starts_with_lit(&trim_start(&line), ".. ") {
            break;
        }
        if is_bullet_start(cur, &line) || enum_marker(&line).is_some() {
            break;
        }
        if ls.len() == 0 {
            if cur.pos + 1 < cur.lines.len() {
                let next = trim(&cur.lines[cur.pos + 1]);
                if adornment_char(&next).is_some() && byte_len(&next) >= byte_len(&t) {
                    break;
                }
            }
            if adornment_char(&t).is_some() {
                break;
            }
        }
        let ghost ls0 = ls@;
        ls.push(line);
        proof {
            if single {
                assert(views(ls@) =~= views(ls0).push(l0));
            }
        }
        cur.pos += 1;
    }
    let text = join(&ls, "\n");
    proof {
        if single {
            assert(views(ls@)[0] == l0);
            assert(text@ == l0);
            lemma_plain_line(l0);
        }
    }
    Block::Paragraph { content: rst_inlines(&text) }
}

// ---------------------------------------------------------------------------
// Inline parsing
// ---------------------------------------------------------------------------

/// Parses reStructuredText inline markup; adjacent text runs are merged.
/// A character that can start Rst inline markup: `*`, a backtick, `\\` or a newline.
pub open spec fn rst_markup_char(c: char) -> bool {
    c == '*' || c == '`' || c == '\\' || c == '\n'
}

fn is_rst_markup(c: char) -> (b: bool)
    ensures
        b == rst_markup_char(c),
{
    c == '*' || c == '`' || c == '\\' || c == '\n'
}

/// Text in which no character can start inline markup.
pub open spec fn plain_rst(s: Seq<char>) -> bool {
    forall|i: int| 0 <= i < s.len() ==> !rst_markup_char(#[trigger] s[i])
}

pub(crate) fn rst_inlines(chars: &Vec<char>) -> (r: Vec<Inline>)
    ensures
        no_adjacent_text(r@),
        plain_rst(chars@) ==> if chars@.len() == 0 {
            r@.len() == 0
        } else {
            r@.len() == 1 && r@[0] is Text && text_of_inline(r@[0]) == chars@
        },
    decreases chars@.len(), 3nat,
{
    let mut result: Vec<Inline> = Vec::new();
    let mut pos: usize = 0;
    while pos < chars.len()
        invariant
            no_adjacent_text(result@),
            pos <= chars.len(),
            plain_rst(chars@) ==> (pos == 0 && result@.len() == 0) || (pos == chars.len()
                && chars@.len() > 0 && result@.len() == 1 && result@[0] is Text && text_of_inline(result@[0]) == chars@),
        decreases chars.len() - pos,
    {
        let ghost start = pos;
        let inl = rst_inline(chars, &mut pos);
        proof {
            if plain_rst(chars@) {
                assert(start == 0);
                assert(chars@.subrange(0, chars@.len() as int) =~= chars@);
                assert(!joins_text(result@, inl));
            }
        }
        push_merged(&mut result, inl);
    }
    result
}

fn single(c: char) -> Inline {
    let mut v: Vec<char> = Vec::new();
    v.push(c);
    Inline::Text(string_of(&v))
}

fn rst_inline(chars: &Vec<char>, pos: &mut usize) -> (r: Inline)
    requires
        *old(pos) < chars.len(),
    ensures
        *old(pos) < *final(pos) <= chars.len(),
        (forall|j: int| *old(pos) <= j < chars@.len() ==> !rst_markup_char(#[trigger] chars@[j]))
            ==> *final(pos) == chars.len() && r is Text && text_of_inline(r) == chars@.subrange(
            *old(pos) as int,
            chars@.len() as int,
        ),
    decreases chars@.len(), 2nat,
{
    let p = *pos;
    let c = chars[p];
    if c == '*' {
        parse_emphasis(chars, pos)
    } else if c == '`' {
        parse_backquoted(chars, pos)
    } else if c == '\\' {
        if p + 1 < chars.len() {
            *pos = p + 2;
            single(chars[p + 1])
        } else {
            *pos = p + 1;
            single('\\')
        }
    } else if c == '\n' {
        *pos = p + 1;
        Inline::SoftLineBreak
    } else {
        let mut q = p;
        while q < chars.len() && !is_rst_markup(chars[q])
            invariant
                p <= q <= chars.len(),
                forall|j: int| p <= j < q ==> !rst_markup_char(#[trigger] chars@[j]),
            decreases chars.len() - q,
        {
            q += 1;
        }
        if q == p {
            *pos = p + 1;
            return single(c);
        }
        *pos = q;
        Inline::Text(string_of(&substring(chars, p, q)))
    }
}

fn parse_emphasis(chars: &Vec<char>, pos: &mut usize) -> (r: Inline)
    requires
        *old(pos) < chars.len(),
    ensures
        *old(pos) < *final(pos) <= chars.len(),
    decreases chars@.len(), 1nat,
{
    let p = *pos;
    if p + 1 < chars.len() && chars[p + 1] == '*' {
        let delim = repeat('*', 2);
        if let Some((content, end)) = until_str(chars, p + 2, &delim) {
            *pos = end;
            return Inline::Bold(rst_inlines(&content));
        }
    }
    if let Some((content, end)) = until_char(chars, p + 1, '*') {
        *pos = end;
        return Inline::Italic(rst_inlines(&content));
    }
    *pos = p + 1;
    single('*')
}

/// Inline literal ``…``, a link `text <url>`_ or `name`_, or interpreted text
/// `…` (read as code).
fn parse_backquoted(chars: &Vec<char>, pos: &mut usize) -> (r: Inline)
    requires
        *old(pos) < chars.len(),
    ensures
        *old(pos) < *final(pos) <= chars.len(),
    decreases chars@.len(), 1nat,
{
    let p = *pos;
    if p + 1 < chars.len() && chars[p + 1] == '`' {
        let delim = repeat('`', 2);
        if let Some((content, end)) = until_str(chars, p + 2, &delim) {
            *pos = end;
            return Inline::InlineCode(string_of(&content));
        }
    }
    let mut q = p + 1;
    while q < chars.len() && chars[q] != '`'
        invariant
            p < q <= chars.len(),
        decreases chars.len() - q,
    {
        q += 1;
    }
    if q >= chars.len() {
        *pos = p + 1;
        return single('`');
    }
    let content = substring(chars, p + 1, q);
    let mut e = q + 1;
    if e < chars.len() && chars[e] == '_' {
        e += 1;
        *pos = e;
        return link_of(&content);
    }
    *pos = e;
    Inline::InlineCode(string_of(&content))
}

/// The link that the text of `…`_ gives: `text <url>` or a named reference.
pub(crate) fn link_of(content: &Vec<char>) -> (r: Inline)
    ensures
        r is Link,
{
    let lt = chars_of("<");
    if let Some(angle) = rfind(content, &lt) {
        if last_is(content, '>') && angle < content.len() - 1 {
            let text = trim(&substring(content, 0, angle));
            let url = substring(content, angle + 1, content.len() - 1);
            let mut t: Vec<Inline> = Vec::new();
            t.push(Inline::Text(string_of(&text)));
            return Inline::Link { url: string_of(&url), text: t, title: None };
        }
    }
    let mut t: Vec<Inline> = Vec::new();
    t.push(Inline::Text(string_of(content)));
    Inline::Link { url: string_of(content), text: t, title: None }
}

} // verus!
