//! Markdown reader: ATX and setext headings, fenced and indented code, block
//! quotes, nested lists, pipe and HTML tables, description lists, reference
//! links and the usual inline markup.
use vstd::prelude::*;

use crate::ast::{InlineModel, inline_model, inlines_model, Block, ColumnAlignment, DescriptionItem, Document, Inline, ListItem, TableCell};
use crate::formats::markdown::reading::{lemma_bracket_close_range, lemma_delim_found, char_text, code_at, code_close, delimited_model, emphasis_at, emphasis_kind, image_at, lemma_image_parts, lemma_run_end, lemma_url_parts, link_at, md_model, md_scan, md_step, run_end, strip_before_breaks, text_end, tilde_at, url_parts, image_parts, break_model};
use crate::formats::model::{lemma_inlines_model_index, lemma_push_merged_model, merge_push};
use crate::error::ParseError;
use crate::format::Parser;
use crate::formats::common::{plain_heading, plain_char, reads_as_plain_text, reads_as_plain_paragraph, plain_paragraph, plain_line, one_plain_line, line_body, lemma_prefix_head, lemma_without_ws_sub, lemma_plain_line_text, first_match_from, lemma_first_match_from, error_is, char_count, is_code_block, without_trailing_empty, joins_text, text_of_inline, continue_last_item, count_char, count_logical_columns, default_alignments, empty_item, lowercase_chars, no_adjacent_text, paragraph_item, push_merged, push_to_last_item, run_length, strip_trailing_spaces_before_breaks};
use crate::text::{all_digits, without_ws, trim_end_spec, repeat_spec, has_suffix, lines_spec, is_ws_spec, is_digit_spec, parse_unsigned_spec, split_spec, trim_end_char_spec, lemma_index_of_char, index_of_char, all_eq_spec, utf8_len, all_ws, has_prefix, join_spec, leading_spec, trim_spec, trim_start_spec, views, all_eq, byte_len, chars_of, contains_char, contains_lit, copy, count_leading, eq, eq_lit, find, find_char, find_lit, find_ws, first_is, is_all_digits, is_blank, is_digit, join, last_is, lines, matches_at, occurs_at, parse_unsigned, push_all, push_str, remove_ws, repeat, rfind, skip, split_char, starts_with_lit, string_of, strip_prefix_lit, strip_suffix_lit, substring, trim, trim_end_char, trim_start, trim_start_char, trim_start_index};

verus! {

pub struct MarkdownParser;

impl Parser for MarkdownParser {
    fn parse(&self, input: &str) -> (r: Result<Document, ParseError>)
        ensures
            r matches Err(e) ==> error_is(e, stall_detail()),
            input@.len() == 0 ==> (r matches Ok(d) && d.children@.len() == 0),
            one_plain_line(input@) ==> (r matches Ok(d) && plain_paragraph(d.children@, line_body(input@))),
            forall|k: nat, l: Seq<char>| #[trigger] atx_text(input@, k, l) ==> (r matches Ok(d) && plain_heading(d.children@, k, l)),
            forall|n: nat, l: Seq<char>| #[trigger] numbered_item_text(input@, n, l) ==> (r matches Ok(d) && list_starting_at(d.children@, n)),
    {
        let text = chars_of(input);
        match parse_markdown(&text) {
            Ok(children) => Ok(Document { children }),
            Err(e) => Err(e),
        }
    }
}

/// A reference-link definition: `[id]: url "title"`, keyed by the lowercased id.
pub struct LinkDef {
    pub key: Vec<char>,
    pub url: Vec<char>,
    pub title: Option<Vec<char>>,
}

/// The index of the definition that a key resolves to: the last one with that
/// key, since a later definition replaces an earlier one.
pub(crate) fn lookup_def(defs: &Vec<LinkDef>, key: &Vec<char>) -> (r: Option<usize>)
    ensures
        match r {
            Some(i) => i < defs@.len() && defs@[i as int].key@ == key@ && forall|j: int|
                i < j < defs@.len() ==> defs@[j].key@ != key@,
            None => forall|j: int| 0 <= j < defs@.len() ==> defs@[j].key@ != key@,
        },
{
    let mut i: usize = defs.len();
    while i > 0
        invariant
            i <= defs.len(),
            forall|j: int| i <= j < defs@.len() ==> defs@[j].key@ != key@,
        decreases i,
    {
        if eq(&defs[i - 1].key, key) {
            return Some(i - 1);
        }
        i -= 1;
    }
    None
}

/// Reads one line as a reference-link definition.
/// The first whitespace index at or after `i`.
pub open spec fn ws_from(s: Seq<char>, i: int) -> Option<int>
    decreases s.len() - i,
{
    if i < 0 || i >= s.len() {
        None
    } else if is_ws_spec(s[i]) {
        Some(i)
    } else {
        ws_from(s, i + 1)
    }
}

proof fn lemma_ws_from(s: Seq<char>, i: int)
    requires
        0 <= i,
    ensures
        match ws_from(s, i) {
            Some(k) => i <= k < s.len() && is_ws_spec(s[k]) && forall|j: int| i <= j < k ==> !is_ws_spec(s[j]),
            None => forall|j: int| i <= j < s.len() ==> !is_ws_spec(s[j]),
        },
    decreases s.len() - i,
{
    if i < s.len() && !is_ws_spec(s[i]) {
        lemma_ws_from(s, i + 1);
    }
}

/// A quoted title: the text between the double quotes around `rem`.
pub open spec fn quoted_title(rem: Seq<char>) -> Option<Seq<char>> {
    if rem.len() > 1 && rem[0] == '"' && rem.last() == '"' {
        Some(rem.subrange(1, rem.len() - 1))
    } else {
        None
    }
}

/// What a reference definition line `[id]: url "title"` gives: the id (not
/// yet folded to lower case), the URL (written bare or in `<…>`), and the
/// title.
pub open spec fn link_def_parts(line: Seq<char>) -> Option<(Seq<char>, Seq<char>, Option<Seq<char>>)> {
    let t = trim_spec(line);
    if !(t.len() > 0 && t[0] == '[') {
        None
    } else {
        let rest = t.subrange(1, t.len() as int);
        match index_of_char(rest, ']') {
            None => None,
            Some(close) => {
                let id = rest.subrange(0, close);
                let after = trim_start_spec(rest.subrange(close + 1, rest.len() as int));
                if !(after.len() > 0 && after[0] == ':') {
                    None
                } else {
                    let u = trim_spec(after.subrange(1, after.len() as int));
                    if u.len() > 0 && u[0] == '<' {
                        match index_of_char(u, '>') {
                            Some(end) => Some(
                                (id, u.subrange(1, end), quoted_title(trim_spec(u.subrange(end + 1, u.len() as int)))),
                            ),
                            None => None,
                        }
                    } else {
                        match ws_from(u, 0) {
                            Some(i) => Some(
                                (id, u.subrange(0, i), quoted_title(trim_spec(u.subrange(i, u.len() as int)))),
                            ),
                            None => Some((id, u, None)),
                        }
                    }
                }
            },
        }
    }
}

/// `d` is the definition that `line` gives, its id folded to lower case.
pub open spec fn link_def_of(line: Seq<char>, d: Option<LinkDef>) -> bool {
    match link_def_parts(line) {
        Some((id, url, title)) => d matches Some(x) && x.key@ == crate::std_calls::lowercase(id) && x.url@
            == url && match (x.title, title) {
            (Some(a), Some(b)) => a@ == b,
            (None, None) => true,
            _ => false,
        },
        None => d is None,
    }
}

fn parse_link_def_line(line: &Vec<char>) -> (r: Option<LinkDef>)
    ensures
        link_def_of(line@, r),
{
    let trimmed = trim(line);
    if !first_is(&trimmed, '[') {
        return None;
    }
    let rest = skip(&trimmed, 1);
    proof {
        lemma_index_of_char(rest@, ']');
    }
    let close = match find_char(&rest, ']') {
        Some(c) => c,
        None => return None,
    };
    assert(index_of_char(rest@, ']') == Some(close as int));
    let id = substring(&rest, 0, close);
    let after = trim_start(&skip(&rest, close + 1));
    if !first_is(&after, ':') {
        return None;
    }
    let url_part = trim(&skip(&after, 1));
    let url: Vec<char>;
    let remainder: Vec<char>;
    proof {
        lemma_index_of_char(url_part@, '>');
        lemma_ws_from(url_part@, 0);
    }
    if first_is(&url_part, '<') {
        let end = match find_char(&url_part, '>') {
            Some(e) => e,
            None => return None,
        };
        assert(index_of_char(url_part@, '>') == Some(end as int));
        url = substring(&url_part, 1, end);
        remainder = trim(&skip(&url_part, end + 1));
    } else {
        match find_ws(&url_part) {
            Some(i) => {
                url = substring(&url_part, 0, i);
                remainder = trim(&skip(&url_part, i));
            },
            None => {
                url = copy(&url_part);
                remainder = Vec::new();
            },
        }
    }
    let title = if first_is(&remainder, '"') && last_is(&remainder, '"') && remainder.len() > 1 {
        Some(substring(&remainder, 1, remainder.len() - 1))
    } else {
        None
    };
    Some(LinkDef { key: lowercase_chars(&id), url, title })
}

/// The parser's state: the lines left after removing link definitions, the
/// current line, and the definitions.
/// The lines that are no reference definitions.
pub open spec fn kept_lines(ls: Seq<Seq<char>>) -> Seq<Seq<char>>
    decreases ls.len(),
{
    if ls.len() == 0 {
        ls
    } else if link_def_parts(ls.last()) is Some {
        kept_lines(ls.drop_last())
    } else {
        kept_lines(ls.drop_last()).push(ls.last())
    }
}

/// The lines that are reference definitions.
pub open spec fn def_lines(ls: Seq<Seq<char>>) -> Seq<Seq<char>>
    decreases ls.len(),
{
    if ls.len() == 0 {
        ls
    } else if link_def_parts(ls.last()) is Some {
        def_lines(ls.drop_last()).push(ls.last())
    } else {
        def_lines(ls.drop_last())
    }
}

struct MdState {
    lines: Vec<Vec<char>>,
    pos: usize,
    defs: Vec<LinkDef>,
}

impl MdState {
    spec fn wf(&self) -> bool {
        self.pos <= self.lines.len()
    }

    /// `self` is `prev` moved forward: same lines and definitions, position
    /// not before `prev`'s and within the lines.
    spec fn moved_from(&self, prev: &MdState) -> bool {
        &&& self.lines@ == prev.lines@
        &&& self.defs@ == prev.defs@
        &&& prev.pos <= self.pos <= self.lines.len()
    }

    fn new(input: &Vec<char>) -> (s: MdState)
        ensures
            s.wf(),
            s.pos == 0,
            input@.len() == 0 ==> s.lines@.len() == 0,
            views(s.lines@) == kept_lines(lines_spec(input@)),
            s.defs@.len() == def_lines(lines_spec(input@)).len(),
            forall|k: int| 0 <= k < s.defs@.len() ==> link_def_of(
                #[trigger] def_lines(lines_spec(input@))[k],
                Some(s.defs@[k]),
            ),
    {
        let all = lines(input);
        let ghost ls = lines_spec(input@);
        let mut kept: Vec<Vec<char>> = Vec::new();
        let mut defs: Vec<LinkDef> = Vec::new();
        let mut i: usize = 0;
        assert(input@.len() == 0 ==> views(all@).len() == 0);
        while i < all.len()
            invariant
                i <= all.len(),
                kept@.len() <= i,
                views(all@) == ls,
                views(kept@) == kept_lines(ls.subrange(0, i as int)),
                defs@.len() == def_lines(ls.subrange(0, i as int)).len(),
                forall|k: int| 0 <= k < defs@.len() ==> link_def_of(
                    #[trigger] def_lines(ls.subrange(0, i as int))[k],
                    Some(defs@[k]),
                ),
            decreases all.len() - i,
        {
            assert(ls.subrange(0, i + 1).drop_last() =~= ls.subrange(0, i as int));
            assert(all@[i as int]@ == ls[i as int]);
            let ghost kept0 = kept@;
            let ghost defs0 = defs@;
            match parse_link_def_line(&all[i]) {
                Some(d) => {
                    defs.push(d);
                    assert(def_lines(ls.subrange(0, i + 1)) == def_lines(ls.subrange(0, i as int)).push(ls[i as int]));
                    assert forall|k: int| 0 <= k < defs@.len() implies link_def_of(
                        #[trigger] def_lines(ls.subrange(0, i + 1))[k],
                        Some(defs@[k]),
                    ) by {
                        if k < defs0.len() {
                            assert(def_lines(ls.subrange(0, i + 1))[k] == def_lines(ls.subrange(0, i as int))[k]);
                        }
                    }
                },
                None => {
                    kept.push(copy(&all[i]));
                    assert(views(kept@) =~= views(kept0).push(ls[i as int]));
                },
            }
            i += 1;
        }
        assert(ls.subrange(0, i as int) =~= ls);
        MdState { lines: kept, pos: 0, defs }
    }

    fn at_end(&self) -> (b: bool)
        ensures
            b == (self.pos >= self.lines.len()),
            self.lines.len() <= usize::MAX,
    {
        self.pos >= self.lines.len()
    }

    fn line(&self) -> (l: Vec<char>)
        requires
            self.pos < self.lines.len(),
        ensures
            l@ == self.lines@[self.pos as int]@,
    {
        copy(&self.lines[self.pos])
    }

    fn inlines(&self, text: &Vec<char>) -> (r: Vec<Inline>)
        ensures
            plain_markdown(text@) ==> reads_as_plain_text(r@, text@),
            self.defs@.len() == 0 ==> inlines_model(r@) == md_model(text@),
    {
        md_inlines(text, &self.defs)
    }
}

/// An ATX heading line of `k` hashes, a space and the plain line `l`.
pub open spec fn atx_line(h: Seq<char>, k: nat, l: Seq<char>) -> bool {
    &&& 1 <= k <= 6
    &&& plain_line(l)
    &&& h == repeat_spec('#', k) + seq![' '] + l
}

/// A text that is one ATX heading line of `k` hashes and the plain line `l`,
/// with or without a final newline.
pub open spec fn atx_text(s: Seq<char>, k: nat, l: Seq<char>) -> bool {
    atx_line(s, k, l) || (s.len() > 0 && s.last() == '\n' && atx_line(s.drop_last(), k, l))
}

/// The number of hashes that begin `h`.
pub open spec fn atx_level(h: Seq<char>) -> nat {
    leading_spec(h, '#')
}

/// What follows the hashes of `h` and the space after them.
pub open spec fn atx_body(h: Seq<char>) -> Seq<char> {
    h.subrange(atx_level(h) as int + 1, h.len() as int)
}


proof fn lemma_leading_hashes(k: nat, rest: Seq<char>)
    requires
        rest.len() > 0,
        rest[0] != '#',
    ensures
        leading_spec(repeat_spec('#', k) + rest, '#') == k,
    decreases k,
{
    let h = repeat_spec('#', k) + rest;
    if k > 0 {
        let k1 = (k - 1) as nat;
        assert(h.drop_first() =~= repeat_spec('#', k1) + rest);
        lemma_leading_hashes(k1, rest);
    } else {
        assert(h =~= rest);
    }
}

/// What an ATX heading line of plain text is: its own trimmed form, read as a
/// heading and nothing else.
proof fn lemma_atx_line(h: Seq<char>, k: nat, l: Seq<char>)
    requires
        atx_line(h, k, l),
    ensures
        trim_spec(h) == h,
        !all_ws(h),
        leading_spec(h, '#') == k,
        h.subrange(k as int, h.len() as int) == seq![' '] + l,
        trim_spec(seq![' '] + l) == l,
        trim_end_char_spec(l, '#') == l,
        plain_markdown(l),
        !has_prefix(h, "<table"@),
        link_def_parts(h) is None,
        lines_spec(h) == seq![h],
        lines_spec(h.push('\n')) == seq![h],
{
    reveal_strlit("<table");
    lemma_plain_line(l);
    let rest = seq![' '] + l;
    assert(h == repeat_spec('#', k) + rest);
    lemma_leading_hashes(k, rest);
    assert(h.subrange(k as int, h.len() as int) =~= rest);
    assert(h[0] == '#');
    assert(h.last() == l.last());
    assert(trim_start_spec(h) == h);
    assert(trim_end_spec(h) == h);
    assert(rest.drop_first() =~= l);
    assert(trim_start_spec(rest) == trim_start_spec(l));
    assert(trim_end_char_spec(l, '#') == l);
    lemma_prefix_head(h, "<table"@);
    assert(!is_ws_spec(h[0]));
    lemma_index_of_char(h, '\n');
    assert forall|j: int| 0 <= j < h.len() implies h[j] != '\n' by {
        if j >= k + 1 {
            assert(h[j] == l[j - k - 1]);
            assert(plain_char(l[j - k - 1]));
        }
    }
    let w = h.push('\n');
    lemma_index_of_char(w, '\n');
    assert(w[h.len() as int] == '\n');
    assert(w.subrange(0, h.len() as int) =~= h);
    assert(w.subrange(h.len() as int + 1, w.len() as int) =~= Seq::<char>::empty());
    assert(lines_spec(Seq::<char>::empty()) == Seq::<Seq<char>>::empty());
    assert(seq![h] + Seq::<Seq<char>>::empty() =~= seq![h]);
}

/// What a plain line is not in Markdown: it starts no block and holds no
/// inline markup.
proof fn lemma_plain_line(l: Seq<char>)
    requires
        plain_line(l),
    ensures
        trim_start_spec(l) == l,
        trim_spec(l) == l,
        !all_ws(l),
        !has_prefix(l, "<table"@),
        !has_prefix(l, "```"@),
        !has_prefix(l, "    "@),
        !has_prefix(l, "> "@),
        l != ">"@,
        !(l[0] == '#' || l[0] == '*' || l[0] == '-' || l[0] == '+'),
        leading_spec(l, '#') == 0,
        forall|j: int| 0 <= j < l.len() ==> #[trigger] l[j] != '.' && l[j] != '-' && l[j] != '*' && l[j] != '_',
        plain_markdown(l),
        link_def_parts(l) is None,
        lines_spec(l) == seq![l],
        lines_spec(l.push('\n')) == seq![l],
{
    reveal_strlit("<table");
    reveal_strlit("```");
    reveal_strlit("    ");
    reveal_strlit("> ");
    reveal_strlit(">");
    lemma_plain_line_text(l);
    lemma_prefix_head(l, "<table"@);
    lemma_prefix_head(l, "```"@);
    lemma_prefix_head(l, "    "@);
    lemma_prefix_head(l, "> "@);
}

/// The number of bytes of leading whitespace in `line`.
fn list_indent(line: &Vec<char>) -> (n: usize)
    ensures
        line@.len() > 0 && !is_ws_spec(line@[0]) ==> n == 0,
{
    let k = trim_start_index(line);
    let lead = substring(line, 0, k);
    proof {
        if line@.len() > 0 && !is_ws_spec(line@[0]) {
            assert(k == 0);
            assert(lead@ =~= Seq::<char>::empty());
        }
    }
    byte_len(&lead)
}

/// Where `. ` first occurs in `t` at or after `i`.
pub open spec fn dot_space_from(t: Seq<char>, i: int) -> Option<int>
    decreases t.len() - i,
{
    if i < 0 || i + 2 > t.len() {
        None
    } else if t[i] == '.' && t[i + 1] == ' ' {
        Some(i)
    } else {
        dot_space_from(t, i + 1)
    }
}

proof fn lemma_dot_space_from(t: Seq<char>, i: int)
    requires
        0 <= i,
    ensures
        match dot_space_from(t, i) {
            Some(d) => i <= d && occurs_at(t, ". "@, d) && forall|j: int| i <= j < d ==> !occurs_at(t, ". "@, j),
            None => forall|j: int| i <= j ==> !occurs_at(t, ". "@, j),
        },
    decreases t.len() - i,
{
    reveal_strlit(". ");
    if i + 2 <= t.len() {
        lemma_dot_space_from(t, i + 1);
        if t[i] == '.' && t[i + 1] == ' ' {
            assert(t.subrange(i, i + 2) =~= ". "@);
        } else {
            if occurs_at(t, ". "@, i) {
                assert(t.subrange(i, i + 2)[0] == t[i]);
                assert(t.subrange(i, i + 2)[1] == t[i + 1]);
            }
        }
    }
}

/// A line that starts an ordered item: the digits before its first `. `,
/// at least one.
pub open spec fn ordered_start_line(t: Seq<char>) -> bool {
    dot_space_from(t, 0) matches Some(d) && d > 0 && all_digits(t.subrange(0, d))
}

/// The number that an ordered item line `t` gives its list: the value of the
/// digits before its first `. `.
pub open spec fn ordered_number(t: Seq<char>) -> Option<nat> {
    match dot_space_from(t, 0) {
        Some(d) => if d > 0 && all_digits(t.subrange(0, d)) {
            parse_unsigned_spec(t.subrange(0, d), 4294967295)
        } else {
            None
        },
        None => None,
    }
}

/// The number of an item line written as the decimal digits of `n`, `. ` and
/// a text is `n`: the list read from it starts at `n`.
pub proof fn law_ordered_number_of_marker(n: u32, rest: Seq<char>)
    ensures
        ordered_start_line(crate::text::decimal(n as nat) + ". "@ + rest),
        ordered_number(crate::text::decimal(n as nat) + ". "@ + rest) == Some(n as nat),
{
    reveal_strlit(". ");
    let d = crate::text::decimal(n as nat);
    let t = d + ". "@ + rest;
    crate::text::lemma_decimal_value(n as nat);
    lemma_dot_space_from(t, 0);
    assert(t.subrange(d.len() as int, d.len() as int + 2) =~= ". "@);
    assert forall|j: int| 0 <= j < d.len() implies !occurs_at(t, ". "@, j) by {
        if occurs_at(t, ". "@, j) {
            assert(t.subrange(j, j + 2)[0] == t[j]);
            assert(t[j] == d[j]);
            assert(is_digit_spec(d[j]));
        }
    }
    assert(occurs_at(t, ". "@, d.len() as int));
    match dot_space_from(t, 0) {
        Some(e) => {
            if e < d.len() {
                assert(!occurs_at(t, ". "@, e));
            }
            if e > d.len() {
                assert(!occurs_at(t, ". "@, d.len() as int));
            }
        },
        None => {
            assert(!occurs_at(t, ". "@, d.len() as int));
        },
    }
    assert(dot_space_from(t, 0) == Some(d.len() as int));
    assert(t.subrange(0, d.len() as int) =~= d);
    assert(is_digit_spec(d[0]));
}

fn is_unordered_list_start(line: &Vec<char>) -> (b: bool)
    ensures
        b ==> trim_start_spec(line@).len() > 0 && (trim_start_spec(line@)[0] == '*' || trim_start_spec(line@)[0]
            == '-' || trim_start_spec(line@)[0] == '+'),
{
    let t = trim_start(line);
    proof {
        reveal_strlit("* ");
        reveal_strlit("- ");
        reveal_strlit("+ ");
        reveal_strlit("*");
        reveal_strlit("-");
        reveal_strlit("+");
        lemma_prefix_head(t@, "* "@);
        lemma_prefix_head(t@, "- "@);
        lemma_prefix_head(t@, "+ "@);
    }
    starts_with_lit(&t, "* ") || starts_with_lit(&t, "- ") || starts_with_lit(&t, "+ ") || eq_lit(
        &t,
        "*",
    ) || eq_lit(&t, "-") || eq_lit(&t, "+")
}

fn is_ordered_list_start(line: &Vec<char>) -> (b: bool)
    ensures
        b ==> exists|j: int| 0 <= j < trim_start_spec(line@).len() && #[trigger] trim_start_spec(line@)[j] == '.',
        b == ordered_start_line(trim_start_spec(line@)),
{
    let t = trim_start(line);
    proof {
        lemma_dot_space_from(t@, 0);
    }
    match find_lit(&t, ". ") {
        Some(d) => {
            proof {
                if dot_space_from(t@, 0) != Some(d as int) {
                    let e = dot_space_from(t@, 0);
                    if e is Some {
                        let e = e->0;
                        assert(!(e < d));
                        assert(!(d < e));
                    }
                }
            }
            proof {
                reveal_strlit(". ");
                assert(t@.subrange(d as int, d + 2)[0] == t@[d as int]);
                assert(t@[d as int] == '.');
            }
            let prefix = substring(&t, 0, d);
            is_all_digits(&prefix) && prefix.len() > 0
        },
        None => false,
    }
}

/// A line of at least three `=` or three `-` (a setext underline).
pub open spec fn setext_underline(next: Seq<char>, c: char) -> bool {
    next.len() > 0 && all_eq_spec(next, c) && (utf8_len(next) >= 3)
}

/// A line of at least three `=` or three `-` (a setext underline).
fn is_setext_underline(next: &Vec<char>, c: char) -> (b: bool)
    ensures
        b == setext_underline(next@, c),
{
    next.len() > 0 && all_eq(next, c) && byte_len(next) >= 3
}

fn is_horizontal_rule(line: &Vec<char>) -> (b: bool)
    ensures
        b ==> exists|j: int|
            0 <= j < trim_spec(line@).len() && (#[trigger] trim_spec(line@)[j] == '-' || trim_spec(line@)[j] == '*'
                || trim_spec(line@)[j] == '_'),
{
    let t = trim(line);
    if byte_len(&t) < 3 {
        return false;
    }
    let ns = remove_ws(&t);
    proof {
        lemma_without_ws_sub(t@);
        if ns@.len() > 0 {
            let j = choose|j: int| 0 <= j < t@.len() && t@[j] == #[trigger] without_ws(t@)[0];
            assert(t@[j] == ns@[0]);
        }
    }
    (all_eq(&ns, '-') || all_eq(&ns, '*') || all_eq(&ns, '_')) && byte_len(&ns) >= 3
}

/// A line without its surrounding whitespace and its outer pipes.
pub open spec fn pipe_body(line: Seq<char>) -> Seq<char> {
    let t = trim_spec(line);
    let s = t.subrange(leading_spec(t, '|') as int, t.len() as int);
    trim_end_char_spec(s, '|')
}

/// A cell of a table's separator line: not empty, with a `-`, and made of
/// `-`, `:` and spaces only.
pub open spec fn separator_cell(c: Seq<char>) -> bool {
    &&& c.len() > 0
    &&& c.contains('-')
    &&& forall|k: int| 0 <= k < c.len() ==> (#[trigger] c[k] == '-' || c[k] == ':' || c[k] == ' ')
}

/// A table's separator line: between its outer pipes something, and each
/// cell a separator cell.
pub open spec fn table_separator(line: Seq<char>) -> bool {
    let t = pipe_body(line);
    let parts = split_spec(t, '|');
    t.len() > 0 && forall|i: int| 0 <= i < parts.len() ==> separator_cell(trim_spec(#[trigger] parts[i]))
}

fn is_table_separator(line: &Vec<char>) -> (b: bool)
    ensures
        b == table_separator(line@),
{
    let t = trim_end_char(&trim_start_char(&trim(line), '|'), '|');
    assert(t@ == pipe_body(line@));
    if t.len() == 0 {
        return false;
    }
    let cells = split_char(&t, '|');
    let ghost parts = split_spec(t@, '|');
    let mut i: usize = 0;
    while i < cells.len()
        invariant
            i <= cells.len(),
            views(cells@) == parts,
            t@ == pipe_body(line@),
            t@.len() > 0,
            parts == split_spec(t@, '|'),
            forall|j: int| 0 <= j < i ==> separator_cell(trim_spec(#[trigger] parts[j])),
        decreases cells.len() - i,
    {
        let c = trim(&cells[i]);
        assert(c@ == trim_spec(parts[i as int]));
        if c.len() == 0 || !contains_char(&c, '-') {
            return false;
        }
        let mut k: usize = 0;
        while k < c.len()
            invariant
                k <= c.len(),
                i < cells.len(),
                views(cells@) == parts,
                t@ == pipe_body(line@),
                t@.len() > 0,
                parts == split_spec(t@, '|'),
                c@ == trim_spec(parts[i as int]),
                c@.len() > 0 && c@.contains('-'),
                forall|j: int| 0 <= j < i ==> separator_cell(trim_spec(#[trigger] parts[j])),
                forall|j: int| 0 <= j < k ==> (#[trigger] c@[j] == '-' || c@[j] == ':' || c@[j] == ' '),
            decreases c.len() - k,
        {
            if c[k] != '-' && c[k] != ':' && c[k] != ' ' {
                assert(!separator_cell(c@));
                assert(!separator_cell(trim_spec(parts[i as int])));
                return false;
            }
            k += 1;
        }
        i += 1;
    }
    true
}

fn is_table_start(st: &MdState) -> (b: bool)
    requires
        st.wf(),
    ensures
        b ==> st.pos + 1 < st.lines.len(),
{
    if st.lines.len() - st.pos <= 1 {
        return false;
    }
    let line = trim(&st.lines[st.pos]);
    contains_char(&line, '|') && is_table_separator(&trim(&st.lines[st.pos + 1]))
}

fn is_description_list_start(st: &MdState) -> (b: bool)
    requires
        st.wf(),
    ensures
        b ==> st.pos + 1 < st.lines.len(),
{
    if st.lines.len() - st.pos <= 1 {
        return false;
    }
    let line = trim(&st.lines[st.pos]);
    let next = trim(&st.lines[st.pos + 1]);
    line.len() > 0 && !first_is(&line, '#') && starts_with_lit(&next, ":   ")
}

/// Parses a whole Markdown text into blocks.
pub(crate) fn parse_markdown(input: &Vec<char>) -> (r: Result<Vec<Block>, ParseError>)
    ensures
        r matches Err(e) ==> error_is(e, stall_detail()),
        input@.len() == 0 ==> (r matches Ok(b) && b@.len() == 0),
        one_plain_line(input@) ==> reads_as_plain_paragraph(r, line_body(input@)),
        forall|k: nat, l: Seq<char>| #[trigger] atx_text(input@, k, l) ==> (r matches Ok(b) && plain_heading(b@, k, l)),
        forall|n: nat, l: Seq<char>| #[trigger] numbered_item_text(input@, n, l) ==> (r matches Ok(b) && list_starting_at(b@, n)),
    decreases input@.len(), 2nat,
{
    let mut st = MdState::new(input);
    proof {
        if exists|n: nat, l: Seq<char>| #[trigger] numbered_item_text(input@, n, l) {
            let (n, l) = choose|n: nat, l: Seq<char>| #[trigger] numbered_item_text(input@, n, l);
            let h = line_body(input@);
            if numbered_item_line(input@, n, l) {
                assert(h == input@);
            } else {
                assert(input@ =~= h.push('\n'));
            }
            lemma_numbered_item_line(h, n, l);
            let ls = lines_spec(input@);
            assert(ls == seq![h]);
            assert(ls.drop_last() =~= Seq::<Seq<char>>::empty());
            assert(kept_lines(ls.drop_last()) == Seq::<Seq<char>>::empty());
            assert(ls.last() == h);
            assert(kept_lines(ls) =~= seq![h]);
            assert(views(st.lines@) == seq![h]);
            assert(st.lines@.len() == 1);
            assert(views(st.lines@)[0] == st.lines@[0]@);
            assert(st.lines@[0]@ == h);
            assert(numbered_item_line(st.lines@[0]@, n, l));
            assert forall|n2: nat, l2: Seq<char>| #[trigger] numbered_item_text(input@, n2, l2) implies numbered_item_line(h, n2, l2)
                && ordered_number(h) == Some(n2) by {
                if numbered_item_line(input@, n2, l2) {
                    lemma_numbered_item_line(input@, n2, l2);
                    assert(input@.last() != '\n');
                }
                lemma_numbered_item_line(h, n2, l2);
            }
        }
        if exists|k: nat, l: Seq<char>| #[trigger] atx_text(input@, k, l) {
            let (k, l) = choose|k: nat, l: Seq<char>| #[trigger] atx_text(input@, k, l);
            let h = line_body(input@);
            if atx_line(input@, k, l) {
                assert(h == input@);
            } else {
                assert(input@ =~= h.push('\n'));
            }
            lemma_atx_line(h, k, l);
            assert(atx_level(h) == k);
            assert(atx_body(h) =~= l);
            let ls = lines_spec(input@);
            assert(ls == seq![h]);
            assert(ls.drop_last() =~= Seq::<Seq<char>>::empty());
            assert(kept_lines(ls.drop_last()) == Seq::<Seq<char>>::empty());
            assert(ls.last() == h);
            assert(kept_lines(ls) =~= seq![h]);
            assert(views(st.lines@) == seq![h]);
            assert(st.lines@.len() == 1);
            assert(views(st.lines@)[0] == st.lines@[0]@);
            assert(st.lines@[0]@ == h);
            assert forall|k2: nat, l2: Seq<char>| #[trigger] atx_text(input@, k2, l2) implies k2 == k && l2 == l by {
                lemma_atx_line(h, k2, l2);
                assert(h.subrange(k2 as int + 1, h.len() as int) =~= l2);
            }
        }
        if one_plain_line(input@) {
            let l = line_body(input@);
            if plain_line(input@) {
                assert(l == input@);
            } else {
                assert(input@ =~= l.push('\n'));
            }
            lemma_plain_line(l);
            let ls = lines_spec(input@);
            assert(ls == seq![l]);
            assert(ls.drop_last() =~= Seq::<Seq<char>>::empty());
            assert(kept_lines(ls.drop_last()) == Seq::<Seq<char>>::empty());
            assert(ls.last() == l);
            assert(link_def_parts(ls.last()) is None);
            assert(kept_lines(ls) =~= seq![l]);
            assert(views(st.lines@) == seq![l]);
            assert(st.lines@.len() == 1);
            assert(views(st.lines@)[0] == st.lines@[0]@);
            assert(st.lines@[0]@ == l);
        }
    }
    parse_blocks(&mut st, input.len())
}

/// The detail of the error reported where reading makes no progress.
pub open spec fn stall_detail() -> Seq<char> {
    "Markdown input makes no progress at a block"@
}

fn stalled() -> (e: ParseError)
    ensures
        error_is(e, stall_detail()),
{
    ParseError::invalid("Markdown input makes no progress at a block")
}

fn parse_blocks(st: &mut MdState, budget: usize) -> (r: Result<Vec<Block>, ParseError>)
    requires
        old(st).wf(),
    ensures
        final(st).moved_from(old(st)),
        r matches Err(e) ==> error_is(e, stall_detail()),
        old(st).pos >= old(st).lines.len() ==> (r matches Ok(b) && b@.len() == 0),
        old(st).pos == 0 && old(st).lines@.len() == 1 && plain_line(old(st).lines@[0]@)
            ==> reads_as_plain_paragraph(r, old(st).lines@[0]@),
        old(st).pos == 0 && old(st).lines@.len() == 1 && atx_line(
            old(st).lines@[0]@,
            atx_level(old(st).lines@[0]@),
            atx_body(old(st).lines@[0]@),
        ) ==> (r matches Ok(b) && plain_heading(b@, atx_level(old(st).lines@[0]@), atx_body(old(st).lines@[0]@))),
        old(st).pos == 0 && old(st).lines@.len() == 1 && (exists|n: nat, l: Seq<char>|
            #[trigger] numbered_item_line(old(st).lines@[0]@, n, l)) ==> (r matches Ok(b) && list_starting_at(
            b@,
            ordered_number(old(st).lines@[0]@)->0,
        )),
    decreases budget, 1nat,
{
    let ghost listed = old(st).pos == 0 && old(st).lines@.len() == 1 && exists|n: nat, l: Seq<char>|
        #[trigger] numbered_item_line(old(st).lines@[0]@, n, l);
    let ghost nl: (nat, Seq<char>) = if listed {
        choose|n: nat, l: Seq<char>| #[trigger] numbered_item_line(old(st).lines@[0]@, n, l)
    } else {
        (0, Seq::empty())
    };
    let ghost head = old(st).pos == 0 && old(st).lines@.len() == 1 && atx_line(
        old(st).lines@[0]@,
        atx_level(old(st).lines@[0]@),
        atx_body(old(st).lines@[0]@),
    );
    let ghost single = old(st).pos == 0 && old(st).lines@.len() == 1 && plain_line(old(st).lines@[0]@);
    let ghost l0 = old(st).lines@[0]@;
    proof {
        if listed {
            lemma_numbered_item_line(l0, nl.0, nl.1);
        }
    }
    let mut blocks: Vec<Block> = Vec::new();
    while !st.at_end()
        invariant
            st.moved_from(old(st)),
            old(st).pos >= old(st).lines.len() ==> blocks@.len() == 0,
            single == (old(st).pos == 0 && old(st).lines@.len() == 1 && plain_line(old(st).lines@[0]@)),
            l0 == old(st).lines@[0]@,
            single ==> (st.pos == 0 && blocks@.len() == 0) || (st.pos == 1 && plain_paragraph(blocks@, l0)),
            head == (old(st).pos == 0 && old(st).lines@.len() == 1 && atx_line(l0, atx_level(l0), atx_body(l0))),
            head ==> (st.pos == 0 && blocks@.len() == 0) || (st.pos == 1 && plain_heading(blocks@, atx_level(l0), atx_body(l0))),
            listed == (old(st).pos == 0 && old(st).lines@.len() == 1 && exists|n: nat, l: Seq<char>|
                #[trigger] numbered_item_line(old(st).lines@[0]@, n, l)),
            listed ==> old(st).pos == 0 && old(st).lines@.len() == 1 && numbered_item_line(l0, nl.0, nl.1)
                && ordered_number(l0) == Some(nl.0),
            listed ==> (st.pos == 0 && blocks@.len() == 0) || (st.pos == 1 && list_starting_at(blocks@, nl.0)),
        decreases st.lines.len() - st.pos,
    {
        let before = st.pos;
        let line = st.line();
        proof {
            if single {
                lemma_plain_line(l0);
            }
            if head {
                lemma_atx_line(l0, atx_level(l0), atx_body(l0));
                lemma_plain_line(atx_body(l0));
            }
            if listed {
                lemma_numbered_item_line(l0, nl.0, nl.1);
            }
        }
        let tl = trim(&line);
        if tl.len() == 0 {
            st.pos += 1;
            continue;
        }
        if starts_with_lit(&tl, "<table") {
            let b = parse_html_table(st);
            blocks.push(b);
            continue;
        }
        if let Some(b) = try_parse_atx_heading(st) {
            blocks.push(b);
            continue;
        }
        if let Some(b) = try_parse_setext_heading(st) {
            blocks.push(b);
            continue;
        }
        if is_horizontal_rule(&line) {
            blocks.push(Block::HorizontalRule);
            st.pos += 1;
            continue;
        }
        let ts = trim_start(&line);
        if starts_with_lit(&ts, "```") {
            let b = parse_fenced_code_block(st);
            blocks.push(b);
            continue;
        }
        if starts_with_lit(&line, "    ") {
            let b = parse_indented_code_block(st);
            blocks.push(b);
            if st.pos == before {
                return Err(stalled());
            }
            continue;
        }
        if starts_with_lit(&ts, "> ") || eq_lit(&ts, ">") {
            let b = parse_blockquote(st, budget);
            match b {
                Ok(b) => blocks.push(b),
                Err(e) => return Err(e),
            }
            if st.pos == before {
                return Err(stalled());
            }
            continue;
        }
        let b = if is_unordered_list_start(&line) {
            parse_unordered_list(st, 0)
        } else if is_ordered_list_start(&line) {
            parse_ordered_list(st, 0)
        } else if is_table_start(st) {
            parse_table(st)
        } else if is_description_list_start(st) {
            parse_description_list(st)
        } else {
            parse_paragraph(st)
        };
        blocks.push(b);
        if st.pos == before {
            return Err(stalled());
        }
    }
    Ok(blocks)
}

fn try_parse_atx_heading(st: &mut MdState) -> (r: Option<Block>)
    requires
        old(st).wf(),
        old(st).pos < old(st).lines.len(),
    ensures
        final(st).moved_from(old(st)),
        r is Some ==> final(st).pos == old(st).pos + 1,
        r is None ==> final(st).pos == old(st).pos,
        ({
            let t = trim_spec(old(st).lines@[old(st).pos as int]@);
            let hashes = leading_spec(t, '#');
            let rest = t.subrange(hashes as int, t.len() as int);
            (r is Some) == (hashes >= 1 && hashes <= 6 && (rest.len() == 0 || rest[0] == ' '))
                && (r matches Some(b) ==> (b matches Block::Heading { level, .. } && level == hashes))
        }),
        ({
            let t = trim_spec(old(st).lines@[old(st).pos as int]@);
            let rest = t.subrange(leading_spec(t, '#') as int, t.len() as int);
            let text = trim_spec(trim_end_char_spec(trim_spec(rest), '#'));
            r matches Some(b) ==> (b matches Block::Heading { content, .. } && (plain_markdown(text)
                ==> reads_as_plain_text(content@, text)))
        }),
{
    let t = trim(&st.lines[st.pos]);
    if !first_is(&t, '#') {
        return None;
    }
    let hashes = count_leading(&t, '#');
    if hashes > 6 {
        return None;
    }
    let rest = skip(&t, hashes);
    if rest.len() > 0 && !first_is(&rest, ' ') {
        return None;
    }
    let text = trim(&trim_end_char(&trim(&rest), '#'));
    st.pos += 1;
    Some(Block::Heading { level: hashes as u8, content: st.inlines(&text) })
}

fn try_parse_setext_heading(st: &mut MdState) -> (r: Option<Block>)
    requires
        old(st).wf(),
        old(st).pos < old(st).lines.len(),
    ensures
        final(st).moved_from(old(st)),
        r is Some ==> final(st).pos == old(st).pos + 2,
        r is None ==> final(st).pos == old(st).pos,
        ({
            let p = old(st).pos as int;
            let next = trim_spec(old(st).lines@[p + 1]@);
            if old(st).lines@.len() - p <= 1 {
                r is None
            } else if setext_underline(next, '=') {
                r matches Some(b) && b matches Block::Heading { level, .. } && level == 1
            } else if setext_underline(next, '-') {
                r matches Some(b) && b matches Block::Heading { level, .. } && level == 2
            } else {
                r is None
            }
        }),
{
    if st.lines.len() - st.pos <= 1 {
        return None;
    }
    let next = trim(&st.lines[st.pos + 1]);
    let level: u8 = if is_setext_underline(&next, '=') {
        1
    } else if is_setext_underline(&next, '-') {
        2
    } else {
        return None;
    };
    let text = trim(&st.lines[st.pos]);
    st.pos += 2;
    Some(Block::Heading { level, content: st.inlines(&text) })
}

/// The index of the first line from `k` on that closes a code fence of
/// `fence` backticks, or the number of lines.
pub open spec fn md_fence_close(lines: Seq<Seq<char>>, k: int, fence: nat) -> int
    decreases lines.len() - k,
{
    if k < 0 || k >= lines.len() {
        lines.len() as int
    } else if has_prefix(trim_start_spec(lines[k]), "```"@) && char_count(trim_spec(lines[k]), '`')
        >= fence {
        k
    } else {
        md_fence_close(lines, k + 1, fence)
    }
}

/// What reading the fenced code block at line `p` gives, and the line after it.
pub open spec fn md_fenced_code(lines: Seq<Seq<char>>, p: int, b: Block, after: int) -> bool {
    let line = trim_start_spec(lines[p]);
    let fence = leading_spec(line, '`');
    let info = trim_spec(line.subrange(fence as int, line.len() as int));
    let k = md_fence_close(lines, p + 1, fence);
    &&& after == (if k < lines.len() {
        k + 1
    } else {
        lines.len() as int
    })
    &&& is_code_block(
        b,
        if info.len() == 0 {
            None
        } else {
            Some(info)
        },
        join_spec(lines.subrange(p + 1, k), "\n"@),
    )
}

fn parse_fenced_code_block(st: &mut MdState) -> (b: Block)
    requires
        old(st).wf(),
        old(st).pos < old(st).lines.len(),
    ensures
        final(st).moved_from(old(st)),
        final(st).pos > old(st).pos,
        md_fenced_code(views(old(st).lines@), old(st).pos as int, b, final(st).pos as int),
{
    let ghost ls = views(st.lines@);
    let ghost p = st.pos as int;
    let line = trim_start(&st.lines[st.pos]);
    assert(st.lines@[p]@ == ls[p]);
    let fence = count_leading(&line, '`');
    let info = trim(&skip(&line, fence));
    let language = if info.len() == 0 {
        None
    } else {
        Some(string_of(&info))
    };
    st.pos += 1;
    let mut content: Vec<Vec<char>> = Vec::new();
    let mut closed = false;
    assert(ls.subrange(p + 1, p + 1) =~= Seq::<Seq<char>>::empty());
    while !closed && !st.at_end()
        invariant
            st.moved_from(old(st)),
            st.pos > old(st).pos,
            ls == views(st.lines@),
            ls.len() == st.lines@.len(),
            p == old(st).pos,
            views(content@) == ls.subrange(p + 1, st.pos as int),
            md_fence_close(ls, p + 1, fence as nat) == md_fence_close(ls, st.pos as int, fence as nat),
            closed ==> st.pos < ls.len() && md_fence_close(ls, st.pos as int, fence as nat) == st.pos,
        decreases st.lines.len() - st.pos, if closed {
            0int
        } else {
            1int
        },
    {
        let l = st.line();
        assert(l@ == ls[st.pos as int]);
        if starts_with_lit(&trim_start(&l), "```") && count_char(&trim(&l), '`') >= fence {
            closed = true;
        } else {
            let ghost before = content@;
            content.push(l);
            assert(views(content@) =~= views(before).push(ls[st.pos as int]));
            st.pos += 1;
            assert(ls.subrange(p + 1, st.pos as int) =~= ls.subrange(p + 1, st.pos - 1).push(
                ls[st.pos - 1],
            ));
        }
    }
    if closed {
        st.pos += 1;
    }
    Block::CodeBlock { language, content: string_of(&join(&content, "\n")) }
}

/// The lines of an indented code block from line `k`: indented lines without
/// their four spaces, blank lines empty; and the line after them.
pub open spec fn md_indented_body(lines: Seq<Seq<char>>, k: int) -> (Seq<Seq<char>>, int)
    decreases lines.len() - k,
{
    if k < 0 || k >= lines.len() {
        (seq![], lines.len() as int)
    } else if has_prefix(lines[k], "    "@) {
        let (c, e) = md_indented_body(lines, k + 1);
        (seq![lines[k].subrange("    "@.len() as int, lines[k].len() as int)] + c, e)
    } else if all_ws(lines[k]) {
        let (c, e) = md_indented_body(lines, k + 1);
        (seq![Seq::<char>::empty()] + c, e)
    } else {
        (seq![], k)
    }
}

fn parse_indented_code_block(st: &mut MdState) -> (b: Block)
    requires
        old(st).wf(),
    ensures
        final(st).moved_from(old(st)),
        final(st).pos == md_indented_body(views(old(st).lines@), old(st).pos as int).1,
        is_code_block(
            b,
            None,
            join_spec(
                without_trailing_empty(md_indented_body(views(old(st).lines@), old(st).pos as int).0),
                "\n"@,
            ),
        ),
{
    let ghost ls = views(st.lines@);
    let ghost s0 = st.pos as int;
    let mut content: Vec<Vec<char>> = Vec::new();
    let mut stop = false;
    assert(views(content@) + md_indented_body(ls, s0).0 =~= md_indented_body(ls, s0).0);
    while !stop && !st.at_end()
        invariant
            st.moved_from(old(st)),
            ls == views(st.lines@),
            ls.len() == st.lines@.len(),
            s0 == old(st).pos,
            views(content@) + md_indented_body(ls, st.pos as int).0 == md_indented_body(ls, s0).0,
            md_indented_body(ls, st.pos as int).1 == md_indented_body(ls, s0).1,
            stop ==> st.pos < ls.len() && md_indented_body(ls, st.pos as int) == (
            Seq::<Seq<char>>::empty(),
            st.pos as int,
            ),
        decreases st.lines.len() - st.pos, if stop {
            0int
        } else {
            1int
        },
    {
        let l = st.line();
        assert(l@ == ls[st.pos as int]);
        let ghost before = content@;
        if let Some(rest) = strip_prefix_lit(&l, "    ") {
            content.push(rest);
            assert(views(content@) =~= views(before).push(rest@));
            assert(views(content@) + md_indented_body(ls, st.pos + 1).0 =~= views(before) + md_indented_body(
                ls,
                st.pos as int,
            ).0);
            st.pos += 1;
        } else if is_blank(&l) {
            content.push(Vec::new());
            assert(views(content@) =~= views(before).push(Seq::<char>::empty()));
            assert(views(content@) + md_indented_body(ls, st.pos + 1).0 =~= views(before) + md_indented_body(
                ls,
                st.pos as int,
            ).0);
            st.pos += 1;
        } else {
            stop = true;
        }
    }
    assert(views(content@) =~= md_indented_body(ls, s0).0);
    let ghost full = views(content@);
    while content.len() > 0 && content[content.len() - 1].len() == 0
        invariant
            without_trailing_empty(views(content@)) == without_trailing_empty(full),
        decreases content.len(),
    {
        let ghost before = content@;
        content.pop();
        assert(views(content@) =~= views(before).drop_last());
    }
    Block::CodeBlock { language: None, content: string_of(&join(&content, "\n")) }
}

/// A line of a block quote: `> ` first, or only `>`.
pub open spec fn quote_line(l: Seq<char>) -> bool {
    has_prefix(l, "> "@) || trim_spec(l) == ">"@
}

/// The text a block-quote line carries.
pub open spec fn quote_content(l: Seq<char>) -> Seq<char> {
    if has_prefix(l, "> "@) {
        l.subrange(2, l.len() as int)
    } else {
        seq![]
    }
}

/// The end of the run of block-quote lines from `k`.
pub open spec fn quote_run_end(lines: Seq<Seq<char>>, k: int) -> int
    decreases lines.len() - k,
{
    if 0 <= k < lines.len() && quote_line(lines[k]) {
        quote_run_end(lines, k + 1)
    } else {
        k
    }
}

/// The text of the block quote whose lines run from `a` to `b`.
pub open spec fn quote_text(lines: Seq<Seq<char>>, a: int, b: int) -> Seq<char> {
    join_spec(lines.subrange(a, b).map_values(|l: Seq<char>| quote_content(l)), "\n"@)
}

fn parse_blockquote(st: &mut MdState, budget: usize) -> (r: Result<Block, ParseError>)
    requires
        old(st).wf(),
    ensures
        final(st).moved_from(old(st)),
        r matches Err(e) ==> error_is(e, stall_detail()),
        ({
            let ls = views(old(st).lines@);
            let e = quote_run_end(ls, old(st).pos as int);
            &&& final(st).pos == e
            &&& quote_text(ls, old(st).pos as int, e).len() >= budget ==> r is Err
            &&& r matches Ok(b) ==> b is BlockQuote
        }),
    decreases budget, 0nat,
{
    proof {
        reveal_strlit("> ");
        reveal_strlit(">");
    }
    let ghost ls = views(st.lines@);
    let ghost p0 = st.pos as int;
    let mut inner: Vec<Vec<char>> = Vec::new();
    while !st.at_end()
        invariant_except_break
            quote_run_end(ls, p0) == quote_run_end(ls, st.pos as int),
        invariant
            st.moved_from(old(st)),
            ls == views(st.lines@),
            p0 == old(st).pos,
            views(inner@) == ls.subrange(p0, st.pos as int).map_values(|l: Seq<char>| quote_content(l)),
        ensures
            quote_run_end(ls, p0) == st.pos,
        decreases st.lines.len() - st.pos,
    {
        let l = st.line();
        assert(l@ == ls[st.pos as int]);
        let ghost before = views(inner@);
        let ghost q = st.pos as int;
        proof {
            reveal_strlit("> ");
            reveal_strlit(">");
        }
        assert(ls.subrange(p0, q + 1) =~= ls.subrange(p0, q).push(ls[q]));
        if let Some(rest) = strip_prefix_lit(&l, "> ") {
            assert(rest@ == quote_content(ls[q]));
            inner.push(rest);
            st.pos += 1;
            assert(views(inner@) =~= before.push(quote_content(ls[q])));
            assert(views(inner@) =~= ls.subrange(p0, st.pos as int).map_values(|l: Seq<char>| quote_content(l)));
        } else if eq_lit(&trim(&l), ">") {
            assert(quote_content(ls[q]) =~= seq![]);
            inner.push(Vec::new());
            st.pos += 1;
            assert(views(inner@) =~= before.push(quote_content(ls[q])));
            assert(views(inner@) =~= ls.subrange(p0, st.pos as int).map_values(|l: Seq<char>| quote_content(l)));
        } else {
            break;
        }
    }
    let text = join(&inner, "\n");
    assert(text@ == quote_text(ls, p0, st.pos as int));
    if text.len() >= budget {
        return Err(stalled());
    }
    match parse_markdown(&text) {
        Ok(children) => Ok(Block::BlockQuote { children }),
        Err(e) => Err(e),
    }
}

/// Parses a bullet list whose items start at indentation `base`; a deeper
/// item starts a nested list.
fn parse_unordered_list(st: &mut MdState, base: usize) -> (b: Block)
    requires
        old(st).wf(),
    ensures
        final(st).moved_from(old(st)),
    decreases old(st).lines.len() - old(st).pos, usize::MAX - base,
{
    let mut items: Vec<ListItem> = Vec::new();
    while !st.at_end()
        invariant
            st.moved_from(old(st)),
        decreases st.lines.len() - st.pos,
    {
        let line = st.line();
        if is_blank(&line) {
            let saved = st.pos;
            st.pos += 1;
            while !st.at_end() && is_blank(&st.lines[st.pos])
                invariant
                    st.moved_from(old(st)),
                    st.pos > saved,
                decreases st.lines.len() - st.pos,
            {
                st.pos += 1;
            }
            if !st.at_end() {
                let next = st.line();
                if list_indent(&next) == base && is_unordered_list_start(&next) {
                    items.push(empty_item());
                    continue;
                }
            }
            st.pos = saved;
            break;
        }
        let indent = list_indent(&line);
        if indent < base {
            break;
        }
        let trimmed = trim_start(&line);
        if indent > base {
            if is_unordered_list_start(&trimmed) {
                let before = st.pos;
                let sub = parse_unordered_list(st, indent);
                push_to_last_item(&mut items, sub);
                if st.pos == before {
                    break;
                }
                continue;
            }
            if is_ordered_list_start(&trimmed) {
                let before = st.pos;
                let sub = parse_ordered_list(st, indent);
                push_to_last_item(&mut items, sub);
                if st.pos == before {
                    break;
                }
                continue;
            }
            let extra = st.inlines(&trimmed);
            continue_last_item(&mut items, extra);
            st.pos += 1;
            continue;
        }
        if is_unordered_list_start(&trimmed) {
            let text = if trimmed.len() > 2 {
                skip(&trimmed, 2)
            } else {
                Vec::new()
            };
            items.push(paragraph_item(st.inlines(&text)));
            st.pos += 1;
        } else {
            break;
        }
    }
    Block::UnorderedList { items }
}

/// A line that starts an ordered list at the left margin: not led by
/// whitespace, its number readable.
pub open spec fn numbered_line(h: Seq<char>) -> bool {
    h.len() > 0 && !is_ws_spec(h[0]) && ordered_number(h) is Some
}

/// A line of one ordered item numbered `n`: the decimal digits of `n`, `. `
/// and the plain line `l`.
pub open spec fn numbered_item_line(h: Seq<char>, n: nat, l: Seq<char>) -> bool {
    &&& n <= u32::MAX
    &&& plain_line(l)
    &&& h == crate::text::decimal(n) + ". "@ + l
}

/// A text that is one such line, with or without a final newline.
pub open spec fn numbered_item_text(s: Seq<char>, n: nat, l: Seq<char>) -> bool {
    numbered_item_line(s, n, l) || (s.len() > 0 && s.last() == '\n' && numbered_item_line(s.drop_last(), n, l))
}

/// The blocks are one ordered list that starts at `n`.
pub open spec fn list_starting_at(b: Seq<Block>, n: nat) -> bool {
    b.len() == 1 && (b[0] matches Block::OrderedList { start, .. } && start == n)
}

/// What a numbered item line of plain text is: its own trimmed form, read as
/// an ordered list and as nothing before it.
proof fn lemma_numbered_item_line(h: Seq<char>, n: nat, l: Seq<char>)
    requires
        numbered_item_line(h, n, l),
    ensures
        trim_spec(h) == h,
        trim_start_spec(h) == h,
        !all_ws(h),
        is_digit_spec(h[0]),
        leading_spec(h, '#') == 0,
        forall|j: int| 0 <= j < h.len() ==> #[trigger] h[j] != '-' && h[j] != '*' && h[j] != '_' && h[j] != '\n',
        numbered_line(h),
        ordered_start_line(h),
        ordered_number(h) == Some(n),
        link_def_parts(h) is None,
        !has_prefix(h, "<table"@),
        !has_prefix(h, "```"@),
        !has_prefix(h, "    "@),
        !has_prefix(h, "> "@),
        h != ">"@,
        lines_spec(h) == seq![h],
        lines_spec(h.push('\n')) == seq![h],
{
    reveal_strlit(". ");
    reveal_strlit("<table");
    reveal_strlit("```");
    reveal_strlit("    ");
    reveal_strlit("> ");
    reveal_strlit(">");
    law_ordered_number_of_marker(n as u32, l);
    lemma_plain_line(l);
    let d = crate::text::decimal(n);
    crate::text::lemma_decimal_value(n);
    assert(h == d + ". "@ + l);
    assert(h[0] == d[0]);
    assert(is_digit_spec(d[0]));
    assert(h.last() == l.last());
    assert(trim_start_spec(h) == h);
    assert(trim_end_spec(h) == h);
    assert forall|j: int| 0 <= j < h.len() implies #[trigger] h[j] != '-' && h[j] != '*' && h[j] != '_' && h[j] != '\n' by {
        if j < d.len() {
            assert(h[j] == d[j]);
            assert(is_digit_spec(d[j]));
        } else if j >= d.len() + 2 {
            assert(h[j] == l[j - d.len() - 2]);
            assert(plain_char(l[j - d.len() - 2]));
        }
    }
    lemma_prefix_head(h, "<table"@);
    lemma_prefix_head(h, "```"@);
    lemma_prefix_head(h, "    "@);
    lemma_prefix_head(h, "> "@);
    lemma_index_of_char(h, '\n');
    let w = h.push('\n');
    lemma_index_of_char(w, '\n');
    assert(w[h.len() as int] == '\n');
    assert(w.subrange(0, h.len() as int) =~= h);
    assert(w.subrange(h.len() as int + 1, w.len() as int) =~= Seq::<char>::empty());
    assert(lines_spec(Seq::<char>::empty()) == Seq::<Seq<char>>::empty());
    assert(seq![h] + Seq::<Seq<char>>::empty() =~= seq![h]);
}

fn parse_ordered_list(st: &mut MdState, base: usize) -> (b: Block)
    requires
        old(st).wf(),
    ensures
        final(st).moved_from(old(st)),
        base == 0 && old(st).pos < old(st).lines@.len() && numbered_line(old(st).lines@[old(st).pos as int]@)
            ==> final(st).pos > old(st).pos,
        base == 0 && old(st).pos < old(st).lines@.len() && numbered_line(old(st).lines@[old(st).pos as int]@)
            ==> (b matches Block::OrderedList { start, .. } && start == ordered_number(
            old(st).lines@[old(st).pos as int]@,
        )->0),
    decreases old(st).lines.len() - old(st).pos, usize::MAX - base,
{
    let ghost fc = base == 0 && old(st).pos < old(st).lines@.len() && numbered_line(old(st).lines@[old(st).pos as int]@);
    let ghost n0: nat = if fc {
        ordered_number(old(st).lines@[old(st).pos as int]@)->0
    } else {
        0
    };
    let mut items: Vec<ListItem> = Vec::new();
    let mut start: u32 = 1;
    let mut first = true;
    while !st.at_end()
        invariant
            st.moved_from(old(st)),
            fc == (base == 0 && old(st).pos < old(st).lines@.len() && numbered_line(old(st).lines@[old(st).pos as int]@)),
            fc ==> n0 == ordered_number(old(st).lines@[old(st).pos as int]@)->0,
            fc ==> (st.pos == old(st).pos && first) || (!first && start == n0 && st.pos > old(st).pos),
        ensures
            fc ==> !first && start == n0 && st.pos > old(st).pos,
        decreases st.lines.len() - st.pos,
    {
        let line = st.line();
        proof {
            if fc && first {
                let h = line@;
                assert(h == old(st).lines@[old(st).pos as int]@);
                assert(trim_start_spec(h) == h);
                assert(!is_ws_spec(h[0]));
                assert(!all_ws(h));
                lemma_dot_space_from(h, 0);
            }
        }
        if is_blank(&line) {
            let saved = st.pos;
            st.pos += 1;
            while !st.at_end() && is_blank(&st.lines[st.pos])
                invariant
                    st.moved_from(old(st)),
                    st.pos > saved,
                decreases st.lines.len() - st.pos,
            {
                st.pos += 1;
            }
            if !st.at_end() {
                let next = st.line();
                let indent = list_indent(&next);
                let trimmed = trim_start(&next);
                if indent == base && is_ordered_list_start(&trimmed) {
                    items.push(empty_item());
                    continue;
                }
                if indent > base && (is_unordered_list_start(&trimmed) || is_ordered_list_start(
                    &trimmed,
                )) {
                    push_to_last_item(&mut items, Block::Paragraph { content: Vec::new() });
                    let sub = if is_unordered_list_start(&trimmed) {
                        parse_unordered_list(st, indent)
                    } else {
                        parse_ordered_list(st, indent)
                    };
                    push_to_last_item(&mut items, sub);
                    continue;
                }
            }
            st.pos = saved;
            break;
        }
        let indent = list_indent(&line);
        if indent < base {
            break;
        }
        let trimmed = trim_start(&line);
        if indent > base {
            if is_unordered_list_start(&trimmed) {
                let before = st.pos;
                let sub = parse_unordered_list(st, indent);
                push_to_last_item(&mut items, sub);
                if st.pos == before {
                    break;
                }
                continue;
            }
            if is_ordered_list_start(&trimmed) {
                let before = st.pos;
                let sub = parse_ordered_list(st, indent);
                push_to_last_item(&mut items, sub);
                if st.pos == before {
                    break;
                }
                continue;
            }
            let extra = st.inlines(&trimmed);
            continue_last_item(&mut items, extra);
            st.pos += 1;
            continue;
        }
        if is_ordered_list_start(&trimmed) {
            proof {
                reveal_strlit(". ");
            }
            let dot = match find_lit(&trimmed, ". ") {
                Some(d) => d,
                None => {
                    break;
                },
            };
            proof {
                if fc && first {
                    let e = dot_space_from(trimmed@, 0);
                    if e != Some(dot as int) {
                        if e is Some {
                            let e = e->0;
                            assert(!(e < dot));
                            assert(!(dot < e));
                        }
                    }
                }
            }
            let num: u32 = match parse_unsigned(&substring(&trimmed, 0, dot), 4294967295) {
                Some(n) => n as u32,
                None => 1,
            };
            if first {
                start = num;
                first = false;
            }
            let text = skip(&trimmed, dot + 2);
            items.push(paragraph_item(st.inlines(&text)));
            st.pos += 1;
        } else {
            break;
        }
    }
    Block::OrderedList { start, items }
}

/// A table row without its surrounding whitespace and one outer pipe on
/// each side.
pub open spec fn row_body(line: Seq<char>) -> Seq<char> {
    let t = trim_spec(line);
    let a = if has_prefix(t, "|"@) { t.subrange(1, t.len() as int) } else { t };
    if has_suffix(a, "|"@) { a.subrange(0, a.len() - 1) } else { a }
}

fn parse_table_row(st: &MdState, line: &Vec<char>) -> (cells: Vec<TableCell>)
    ensures
        cells@.len() == split_spec(row_body(line@), '|').len(),
        forall|k: int| 0 <= k < cells@.len() ==> (#[trigger] cells@[k]).colspan == 1 && cells@[k].rowspan == 1,
{
    proof {
        reveal_strlit("|");
    }
    let t = trim(line);
    let inner = match strip_prefix_lit(&t, "|") {
        Some(r) => r,
        None => t,
    };
    let inner = match strip_suffix_lit(&inner, "|") {
        Some(r) => r,
        None => inner,
    };
    assert(inner@ == row_body(line@));
    let parts = split_char(&inner, '|');
    assert(views(parts@).len() == parts@.len());
    let mut cells: Vec<TableCell> = Vec::new();
    let mut i: usize = 0;
    while i < parts.len()
        invariant
            i <= parts.len(),
            cells@.len() == i,
            forall|k: int| 0 <= k < cells@.len() ==> (#[trigger] cells@[k]).colspan == 1 && cells@[k].rowspan == 1,
        decreases parts.len() - i,
    {
        cells.push(TableCell::new(st.inlines(&trim(&parts[i]))));
        i += 1;
    }
    cells
}

/// The alignment that a separator cell marks: `:` on both sides centres,
/// on the right alone right-aligns, on the left alone left-aligns.
pub open spec fn alignment_of(c: Seq<char>) -> ColumnAlignment {
    let left = c.len() > 0 && c[0] == ':';
    let right = c.len() > 0 && c.last() == ':';
    if left && right {
        ColumnAlignment::Center
    } else if right {
        ColumnAlignment::Right
    } else if left {
        ColumnAlignment::Left
    } else {
        ColumnAlignment::Default
    }
}

fn parse_table_alignments(line: &Vec<char>) -> (out: Vec<ColumnAlignment>)
    ensures
        out@.len() == split_spec(pipe_body(line@), '|').len(),
        forall|i: int| 0 <= i < out@.len() ==> #[trigger] out@[i] == alignment_of(
            trim_spec(split_spec(pipe_body(line@), '|')[i]),
        ),
{
    let t = trim_end_char(&trim_start_char(&trim(line), '|'), '|');
    assert(t@ == pipe_body(line@));
    let parts = split_char(&t, '|');
    let mut out: Vec<ColumnAlignment> = Vec::new();
    let mut i: usize = 0;
    while i < parts.len()
        invariant
            i <= parts.len(),
            out@.len() == i,
            views(parts@) == split_spec(pipe_body(line@), '|'),
            forall|j: int| 0 <= j < i ==> #[trigger] out@[j] == alignment_of(
                trim_spec(split_spec(pipe_body(line@), '|')[j]),
            ),
        decreases parts.len() - i,
    {
        let c = trim(&parts[i]);
        assert(c@ == trim_spec(split_spec(pipe_body(line@), '|')[i as int]));
        let left = first_is(&c, ':');
        let right = last_is(&c, ':');
        out.push(
            if left && right {
                ColumnAlignment::Center
            } else if right {
                ColumnAlignment::Right
            } else if left {
                ColumnAlignment::Left
            } else {
                ColumnAlignment::Default
            },
        );
        i += 1;
    }
    out
}

fn parse_table(st: &mut MdState) -> (b: Block)
    requires
        old(st).wf(),
        old(st).pos + 1 < old(st).lines.len(),
    ensures
        final(st).moved_from(old(st)),
        final(st).pos > old(st).pos,
{
    let header_line = st.line();
    let headers = parse_table_row(st, &header_line);
    st.pos += 1;
    let sep = st.line();
    let alignments = parse_table_alignments(&sep);
    st.pos += 1;
    let mut rows: Vec<Vec<TableCell>> = Vec::new();
    while !st.at_end()
        invariant
            st.moved_from(old(st)),
            st.pos > old(st).pos,
        decreases st.lines.len() - st.pos,
    {
        let l = st.line();
        if !contains_char(&l, '|') || is_blank(&l) {
            break;
        }
        rows.push(parse_table_row(st, &l));
        st.pos += 1;
    }
    Block::Table { headers, alignments, rows }
}

/// A numeric attribute of an HTML start tag, quoted (`colspan="2"`) or not
/// (`colspan=2`).
/// The end of the run of ASCII digits from `i`.
pub open spec fn digit_run_end(s: Seq<char>, i: int) -> int
    decreases s.len() - i,
{
    if 0 <= i < s.len() && is_digit_spec(s[i]) {
        digit_run_end(s, i + 1)
    } else {
        i
    }
}

/// A number read as a `u32`.
pub open spec fn as_u32(d: Seq<char>) -> Option<u32> {
    match parse_unsigned_spec(d, 4294967295) {
        Some(n) => Some(n as u32),
        None => None,
    }
}

/// The value of attribute `attr` of an HTML tag: `attr="N"` at its first
/// occurrence, else the digits of `attr=N` at its first occurrence.
pub open spec fn html_attr_of(tag: Seq<char>, attr: Seq<char>) -> Option<u32> {
    let quoted = attr + "=\""@;
    let bare = attr + "="@;
    let from_quoted = match first_match_from(tag, 0, quoted) {
        Some(idx) => {
            let after = tag.subrange(idx + quoted.len(), tag.len() as int);
            match index_of_char(after, '"') {
                Some(end) => Some(as_u32(after.subrange(0, end))),
                None => None,
            }
        },
        None => None,
    };
    match from_quoted {
        Some(v) => v,
        None => match first_match_from(tag, 0, bare) {
            Some(idx) => {
                let after = tag.subrange(idx + bare.len(), tag.len() as int);
                let k = digit_run_end(after, 0);
                if k > 0 {
                    as_u32(after.subrange(0, k))
                } else {
                    None
                }
            },
            None => None,
        },
    }
}

fn extract_html_attr(tag: &Vec<char>, attr: &str) -> (r: Option<u32>)
    ensures
        r == html_attr_of(tag@, attr@),
{
    let a = chars_of(attr);
    let mut quoted = copy(&a);
    push_str(&mut quoted, "=\"");
    proof {
        reveal_strlit("=\"");
        reveal_strlit("=");
        lemma_first_match_from(tag@, quoted@, 0);
    }
    if let Some(idx) = find(tag, &quoted) {
        assert(occurs_at(tag@, quoted@, idx as int));
        assert(idx + quoted@.len() <= tag@.len());
        assert(first_match_from(tag@, 0, quoted@) == Some(idx as int));
        {
            let after = skip(tag, idx + quoted.len());
            proof {
                lemma_index_of_char(after@, '"');
            }
            if let Some(end) = find_char(&after, '"') {
                return match parse_unsigned(&substring(&after, 0, end), 4294967295) {
                    Some(n) => Some(n as u32),
                    None => None,
                };
            }
        }
    }
    let mut bare = copy(&a);
    push_str(&mut bare, "=");
    proof {
        lemma_first_match_from(tag@, bare@, 0);
    }
    if let Some(idx) = find(tag, &bare) {
        assert(occurs_at(tag@, bare@, idx as int));
        assert(idx + bare@.len() <= tag@.len());
        assert(first_match_from(tag@, 0, bare@) == Some(idx as int));
        {
            let after = skip(tag, idx + bare.len());
            let mut k: usize = 0;
            while k < after.len() && is_digit(after[k])
                invariant
                    k <= after.len(),
                    digit_run_end(after@, 0) == digit_run_end(after@, k as int),
                decreases after.len() - k,
            {
                k += 1;
            }
            if k > 0 {
                return match parse_unsigned(&substring(&after, 0, k), 4294967295) {
                    Some(n) => Some(n as u32),
                    None => None,
                };
            }
        }
    }
    None
}

/// The earliest cell start tag in `s`: (start, end of the tag, whether it is a
/// header cell).
/// A candidate starting at `idx` beats the best so far when it starts
/// earlier (or there is none yet).
pub open spec fn beats(best: Option<(usize, usize, bool)>, idx: int) -> bool {
    match best {
        Some((a, _, _)) => idx < a,
        None => true,
    }
}

/// The earliest cell tag after looking for the header (`header`) or data
/// tags: `<th>` / `<td>` at their first occurrence, then `<th ` / `<td ` at
/// theirs, up to the next `>`; an earlier start replaces the best so far.
pub open spec fn cell_tag_step(s: Seq<char>, best: Option<(usize, usize, bool)>, header: bool) -> Option<(usize, usize, bool)> {
    let simple = if header { "<th>"@ } else { "<td>"@ };
    let attr = if header { "<th "@ } else { "<td "@ };
    let b1 = match first_match_from(s, 0, simple) {
        Some(idx) => if beats(best, idx) {
            Some((idx as usize, (idx + simple.len()) as usize, header))
        } else {
            best
        },
        None => best,
    };
    match first_match_from(s, 0, attr) {
        Some(idx) => match index_of_char(s.subrange(idx, s.len() as int), '>') {
            Some(gt) => if beats(b1, idx) {
                Some((idx as usize, (idx + gt + 1) as usize, header))
            } else {
                b1
            },
            None => b1,
        },
        None => b1,
    }
}

fn earliest_cell_tag(s: &Vec<char>) -> (r: Option<(usize, usize, bool)>)
    ensures
        match r {
            Some((a, b, _)) => a < b <= s@.len(),
            None => true,
        },
        r == cell_tag_step(s@, cell_tag_step(s@, None, true), false),
{
    proof {
        reveal_strlit("<th>");
        reveal_strlit("<td>");
        reveal_strlit("<th ");
        reveal_strlit("<td ");
    }
    let mut best: Option<(usize, usize, bool)> = None;
    let mut k: usize = 0;
    while k < 2
        invariant
            k <= 2,
            match best {
                Some((a, b, _)) => a < b <= s@.len(),
                None => true,
            },
            k == 0 ==> best is None,
            k == 1 ==> best == cell_tag_step(s@, None, true),
            k == 2 ==> best == cell_tag_step(s@, cell_tag_step(s@, None, true), false),
        decreases 2 - k,
    {
        let ghost best0 = best;
        let header = k == 0;
        let simple = chars_of(if header { "<th>" } else { "<td>" });
        let attr = chars_of(if header { "<th " } else { "<td " });
        proof {
            reveal_strlit("<th>");
            reveal_strlit("<td>");
            reveal_strlit("<th ");
            reveal_strlit("<td ");
            lemma_first_match_from(s@, simple@, 0);
            lemma_first_match_from(s@, attr@, 0);
        }
        if let Some(idx) = find(s, &simple) {
            assert(first_match_from(s@, 0, simple@) == Some(idx as int));
            if idx + simple.len() <= s.len() && simple.len() > 0 {
                let better = match best {
                    Some((a, _, _)) => idx < a,
                    None => true,
                };
                if better {
                    best = Some((idx, idx + simple.len(), header));
                }
            }
        }
        let ghost b1 = best;
        assert(b1 == (match first_match_from(s@, 0, simple@) {
            Some(idx) => if beats(best0, idx) {
                Some((idx as usize, (idx + simple@.len()) as usize, header))
            } else {
                best0
            },
            None => best0,
        }));
        if let Some(idx) = find(s, &attr) {
            assert(first_match_from(s@, 0, attr@) == Some(idx as int));
            if idx <= s.len() {
                let rest = skip(s, idx);
                proof {
                    lemma_index_of_char(rest@, '>');
                }
                if let Some(gt) = find_char(&rest, '>') {
                    let better = match best {
                        Some((a, _, _)) => idx < a,
                        None => true,
                    };
                    if better {
                        best = Some((idx, idx + gt + 1, header));
                    }
                }
            }
        }
        k += 1;
    }
    best
}

fn parse_html_table(st: &mut MdState) -> (b: Block)
    requires
        old(st).wf(),
        old(st).pos < old(st).lines.len(),
    ensures
        final(st).moved_from(old(st)),
        final(st).pos > old(st).pos,
{
    let mut html: Vec<char> = Vec::new();
    while !st.at_end()
        invariant
            st.moved_from(old(st)),
            st.pos > old(st).pos || st.pos < st.lines.len(),
        ensures
            st.moved_from(old(st)),
            st.pos > old(st).pos,
        decreases st.lines.len() - st.pos,
    {
        let l = st.line();
        push_all(&mut html, &l);
        html.push('\n');
        st.pos += 1;
        if contains_lit(&l, "</table>") {
            break;
        }
    }
    let mut headers: Vec<TableCell> = Vec::new();
    let mut rows: Vec<Vec<TableCell>> = Vec::new();
    let mut in_header = false;
    let mut current: Vec<TableCell> = Vec::new();
    let hl = lines(&html);
    let mut li: usize = 0;
    while li < hl.len()
        invariant
            li <= hl.len(),
        decreases hl.len() - li,
    {
        let t = trim(&hl[li]);
        if contains_lit(&t, "<th>") || contains_lit(&t, "<th ") {
            in_header = true;
        }
        if contains_lit(&t, "<tr>") || contains_lit(&t, "<tr ") {
            current = Vec::new();
        }
        let mut search = copy(&t);
        loop
            decreases search@.len(),
        {
            let (start_idx, tag_end, header) = match earliest_cell_tag(&search) {
                Some(x) => x,
                None => break,
            };
            let tag = substring(&search, start_idx, tag_end);
            let colspan = match extract_html_attr(&tag, "colspan") {
                Some(n) => n,
                None => 1,
            };
            let rowspan = match extract_html_attr(&tag, "rowspan") {
                Some(n) => n,
                None => 1,
            };
            let close = chars_of(if header { "</th>" } else { "</td>" });
            let rest = skip(&search, tag_end);
            match find(&rest, &close) {
                Some(end) => {
                    let cell_text = substring(&rest, 0, end);
                    current.push(TableCell::with_span(st.inlines(&cell_text), colspan, rowspan));
                    search = skip(&rest, end + close.len());
                },
                None => break,
            }
        }
        if contains_lit(&t, "</tr>") {
            if in_header && headers.len() == 0 {
                headers = current;
                in_header = false;
            } else if current.len() > 0 {
                rows.push(current);
            }
            current = Vec::new();
        }
        li += 1;
    }
    let num_cols = count_logical_columns(&headers);
    let alignments = default_alignments(num_cols);
    Block::Table { headers, alignments, rows }
}

fn parse_description_list(st: &mut MdState) -> (b: Block)
    requires
        old(st).wf(),
    ensures
        final(st).moved_from(old(st)),
{
    let mut items: Vec<DescriptionItem> = Vec::new();
    while !st.at_end() && is_description_list_start(st)
        invariant
            st.moved_from(old(st)),
        decreases st.lines.len() - st.pos,
    {
        let ghost iter_start = st.pos;
        let term_text = trim(&st.lines[st.pos]);
        let term = st.inlines(&term_text);
        st.pos += 1;
        let mut def_lines: Vec<Vec<char>> = Vec::new();
        while !st.at_end()
            invariant
                st.moved_from(old(st)),
                st.pos > iter_start,
            decreases st.lines.len() - st.pos,
        {
            let l = st.line();
            if let Some(rest) = strip_prefix_lit(&l, ":   ") {
                def_lines.push(rest);
                st.pos += 1;
            } else if starts_with_lit(&l, "    ") || first_is(&l, '\t') {
                def_lines.push(trim_start(&l));
                st.pos += 1;
            } else if is_blank(&l) {
                st.pos += 1;
                if !st.at_end() && is_description_list_start(st) {
                    break;
                }
                if !st.at_end() {
                    let next = st.line();
                    if starts_with_lit(&next, ":   ") || starts_with_lit(&next, "    ") {
                        def_lines.push(Vec::new());
                        continue;
                    }
                }
                break;
            } else {
                def_lines.push(l);
                st.pos += 1;
            }
        }
        let def_text = join(&def_lines, "\n");
        let mut definition: Vec<Block> = Vec::new();
        definition.push(Block::Paragraph { content: st.inlines(&def_text) });
        let mut definitions: Vec<Vec<Block>> = Vec::new();
        definitions.push(definition);
        items.push(DescriptionItem { term, definitions });
    }
    Block::DescriptionList { items }
}

fn parse_paragraph(st: &mut MdState) -> (b: Block)
    requires
        old(st).wf(),
    ensures
        final(st).moved_from(old(st)),
        b is Paragraph,
        old(st).pos + 1 == old(st).lines@.len() && plain_line(old(st).lines@[old(st).pos as int]@)
            ==> final(st).pos == old(st).lines@.len(),
        old(st).pos + 1 == old(st).lines@.len() && plain_line(old(st).lines@[old(st).pos as int]@)
            ==> (b matches Block::Paragraph { content } && reads_as_plain_text(content@, old(st).lines@[old(st).pos as int]@)),
{
    let ghost single = old(st).pos + 1 == old(st).lines@.len() && plain_line(old(st).lines@[old(st).pos as int]@);
    let ghost l0 = if old(st).pos < old(st).lines@.len() {
        old(st).lines@[old(st).pos as int]@
    } else {
        Seq::<char>::empty()
    };
    let mut ls: Vec<Vec<char>> = Vec::new();
    while !st.at_end()
        invariant
            st.moved_from(old(st)),
            single == (old(st).pos + 1 == old(st).lines@.len() && plain_line(old(st).lines@[old(st).pos as int]@)),
            single ==> l0 == old(st).lines@[old(st).pos as int]@,
            single ==> (st.pos == old(st).pos && ls@.len() == 0) || (st.pos == old(st).pos + 1 && views(ls@) == seq![l0]),
        ensures
            single ==> st.pos == old(st).pos + 1 && views(ls@) == seq![l0],
        decreases st.lines.len() - st.pos,
    {
        let l = st.line();
        proof {
            if single {
                lemma_plain_line(l@);
            }
        }
        if is_blank(&l) {
            break;
        }
        let ts = trim_start(&l);
        if starts_with_lit(&ts, "```") || first_is(&ts, '#') || is_horizontal_rule(&l)
            || is_unordered_list_start(&l) || is_ordered_list_start(&l) || is_table_start(st)
            || starts_with_lit(&ts, "> ") || starts_with_lit(&ts, "<table") {
            break;
        }
        if st.lines.len() - st.pos > 1 {
            let next = trim(&st.lines[st.pos + 1]);
            if (is_setext_underline(&next, '=') || is_setext_underline(&next, '-')) && ls.len()
                == 0 {
                break;
            }
        }
        let ghost ls0 = ls@;
        ls.push(l);
        proof {
            if single {
                assert(views(ls@) =~= views(ls0).push(l0));
            }
        }
        st.pos += 1;
    }
    let text = join(&ls, "\n");
    proof {
        if single {
            assert(views(ls@)[0] == l0);
            assert(text@ == l0);
            lemma_plain_line(l0);
        }
    }
    Block::Paragraph { content: st.inlines(&text) }
}

// ---------------------------------------------------------------------------
// Inline parsing
// ---------------------------------------------------------------------------

/// A character that can start Markdown inline markup: `\`, a backtick, `*`,
/// `_`, `~`, `^`, `[`, `!`, `<`, or a newline.
pub open spec fn markdown_markup_char(c: char) -> bool {
    c == '\\' || c == '`' || c == '*' || c == '_' || c == '~' || c == '^' || c == '[' || c == '!'
        || c == '<' || c == '\n'
}

/// Text in which no character can start inline markup.
pub open spec fn plain_markdown(s: Seq<char>) -> bool {
    forall|i: int| 0 <= i < s.len() ==> !markdown_markup_char(#[trigger] s[i])
}

/// Parses Markdown inline markup, with no reference-link definitions. Text
/// without markup characters is read as one text inline.
pub fn parse_inlines(input: &str) -> (r: Vec<Inline>)
    ensures
        no_adjacent_text(r@),
        plain_markdown(input@) ==> reads_as_plain_text(r@, input@),
        inlines_model(r@) == md_model(input@),
{
    let chars = chars_of(input);
    let defs: Vec<LinkDef> = Vec::new();
    md_inlines(&chars, &defs)
}

/// Parses Markdown inline markup with the given reference-link definitions.
pub(crate) fn md_inlines(chars: &Vec<char>, defs: &Vec<LinkDef>) -> (r: Vec<Inline>)
    ensures
        no_adjacent_text(r@),
        plain_markdown(chars@) ==> reads_as_plain_text(r@, chars@),
        defs@.len() == 0 ==> inlines_model(r@) == md_model(chars@),
    decreases chars.len(), 2nat,
{
    let mut result: Vec<Inline> = Vec::new();
    let mut pos: usize = 0;
    let ghost s = chars@;
    assert(inlines_model(result@) =~= seq![]);
    while pos < chars.len()
        invariant
            no_adjacent_text(result@),
            pos <= chars.len(),
            s == chars@,
            plain_markdown(chars@) ==> (pos == 0 && result@.len() == 0) || (pos == chars.len()
                && reads_as_plain_text(result@, chars@)),
            defs@.len() == 0 ==> md_scan(s, pos as int, inlines_model(result@)) == md_scan(s, 0, seq![]),
        decreases chars.len() - pos,
    {
        let ghost start = pos;
        let ghost before = result@;
        let inl = try_parse_inline(chars, &mut pos, defs);
        proof {
            if plain_markdown(chars@) {
                assert(start == 0);
                assert(chars@.subrange(0, chars@.len() as int) =~= chars@);
                assert(!joins_text(result@, inl));
            }
        }
        push_merged(&mut result, inl);
        proof {
            lemma_push_merged_model(before, result@, inl);
            if defs@.len() == 0 {
                assert(md_scan(s, start as int, inlines_model(before)) == md_scan(s, pos as int, inlines_model(result@)));
            }
        }
    }
    let ghost before = result@;
    strip_trailing_spaces_before_breaks(&mut result);
    proof {
        if plain_markdown(chars@) && chars@.len() > 0 {
            assert(result@[0] == before[0]);
        }
        lemma_inlines_model_index(before);
        lemma_inlines_model_index(result@);
        let mb = inlines_model(before);
        assert forall|j: int| 0 <= j < result@.len() implies #[trigger] inlines_model(result@)[j] == strip_before_breaks(mb)[j] by {
            if j + 1 < before.len() {
                assert(break_model(mb[j + 1]) == crate::formats::common::is_line_break(before[j + 1]));
            }
            assert(mb[j] is Text == before[j] is Text);
        }
        assert(inlines_model(result@) =~= strip_before_breaks(mb));
    }
    result
}

fn text_of(c: char) -> (r: Inline)
    ensures
        inline_model(r) == char_text(c),
        r is Text && text_of_inline(r) == seq![c],
{
    let mut v: Vec<char> = Vec::new();
    v.push(c);
    assert(v@ =~= seq![c]);
    Inline::Text(string_of(&v))
}

fn try_parse_inline(chars: &Vec<char>, pos: &mut usize, defs: &Vec<LinkDef>) -> (r: Inline)
    requires
        *old(pos) < chars.len(),
    ensures
        *final(pos) > *old(pos),
        *final(pos) <= chars.len(),
        (forall|j: int| *old(pos) <= j < chars@.len() ==> !markdown_markup_char(#[trigger] chars@[j]))
            ==> *final(pos) == chars.len() && r is Text && text_of_inline(r) == chars@.subrange(
            *old(pos) as int,
            chars@.len() as int,
        ),
        defs@.len() == 0 ==> (inline_model(r), *final(pos) as int) == md_step(chars@, *old(pos) as int),
    decreases chars.len(), 1nat,
{
    let c = chars[*pos];
    if c == '\\' {
        parse_escape(chars, pos)
    } else if c == '`' {
        parse_inline_code(chars, pos)
    } else if c == '*' || c == '_' {
        parse_emphasis(chars, pos, defs)
    } else if c == '~' {
        parse_tilde(chars, pos, defs)
    } else if c == '^' {
        parse_superscript(chars, pos, defs)
    } else if c == '[' {
        parse_link_or_image(chars, pos, defs)
    } else if c == '!' {
        parse_image(chars, pos, defs)
    } else if c == '<' {
        *pos = *pos + 1;
        text_of('<')
    } else if c == '\n' {
        parse_line_break(chars, pos)
    } else {
        parse_text(chars, pos)
    }
}

fn parse_escape(chars: &Vec<char>, pos: &mut usize) -> (r: Inline)
    requires
        *old(pos) < chars.len(),
        chars@[*old(pos) as int] == '\\',
    ensures
        *final(pos) > *old(pos),
        *final(pos) <= chars.len(),
        (inline_model(r), *final(pos) as int) == md_step(chars@, *old(pos) as int),
{
    *pos = *pos + 1;
    if *pos < chars.len() {
        let c = chars[*pos];
        *pos = *pos + 1;
        text_of(c)
    } else {
        text_of('\\')
    }
}

fn parse_inline_code(chars: &Vec<char>, pos: &mut usize) -> (r: Inline)
    requires
        *old(pos) < chars.len(),
        chars@[*old(pos) as int] == '`',
    ensures
        *final(pos) > *old(pos),
        *final(pos) <= chars.len(),
        (inline_model(r), *final(pos) as int) == code_at(chars@, *old(pos) as int),
{
    let start = *pos;
    let ticks = run_length(chars, start, '`');
    proof {
        lemma_run_end(chars@, start as int, '`', start + ticks);
    }
    let content_start = start + ticks;
    let mut p = content_start;
    loop
        invariant
            start < content_start <= p,
            start == *old(pos),
            *pos == *old(pos),
            ticks >= 1,
            content_start == start + ticks,
            p <= chars.len(),
            run_end(chars@, start as int, '`') == content_start,
            code_close(chars@, content_start as int, ticks as int) == code_close(chars@, p as int, ticks as int),
        decreases chars.len() + 1 - p,
    {
        if p >= chars.len() {
            *pos = start + 1;
            return text_of('`');
        }
        if chars[p] == '`' {
            let close = run_length(chars, p, '`');
            proof {
                lemma_run_end(chars@, p as int, '`', p + close);
            }
            if close == ticks {
                let content = substring(chars, content_start, p);
                *pos = p + close;
                let content = if first_is(&content, ' ') && last_is(&content, ' ') && content.len()
                    > 1 {
                    substring(&content, 1, content.len() - 1)
                } else {
                    content
                };
                let r = Inline::InlineCode(string_of(&content));
                assert(inline_model(r) == code_at(chars@, start as int).0);
                return r;
            }
            p = p + close;
        } else {
            p = p + 1;
        }
    }
}

/// Scans from `start` for `delim`, stopping with `None` at a blank line or the
/// end; on success the content before the delimiter is returned and `pos`
/// moves past it.
/// Where `delim` first occurs from `p` on, unless a blank line (two
/// newlines) or the end comes first.
pub open spec fn delim_before_blank(s: Seq<char>, p: int, delim: Seq<char>) -> Option<int>
    decreases s.len() - p,
{
    if p < 0 || p >= s.len() {
        None
    } else if occurs_at(s, delim, p) {
        Some(p)
    } else if s[p] == '\n' && p + 1 < s.len() && s[p + 1] == '\n' {
        None
    } else {
        delim_before_blank(s, p + 1, delim)
    }
}

fn parse_until_delimiter(chars: &Vec<char>, pos: &mut usize, delim: &Vec<char>) -> (r: Option<
    Vec<char>,
>)
    requires
        delim@.len() > 0,
    ensures
        match r {
            Some(c) => *old(pos) + c@.len() <= chars.len() && *final(pos) > *old(pos)
                && *final(pos) <= chars.len() && delim_before_blank(chars@, *old(pos) as int, delim@)
                == Some(*final(pos) - delim@.len()) && c@ == chars@.subrange(
                *old(pos) as int,
                *final(pos) - delim@.len(),
            ),
            None => *final(pos) == *old(pos) && delim_before_blank(chars@, *old(pos) as int, delim@)
                is None,
        },
{
    let start = *pos;
    let mut p = start;
    let mut content: Vec<char> = Vec::new();
    while p < chars.len()
        invariant
            start <= p,
            start == *old(pos),
            *pos == *old(pos),
            delim@.len() > 0,
            content@.len() == p - start,
            p <= chars.len() ==> content@ == chars@.subrange(start as int, p as int),
            delim_before_blank(chars@, start as int, delim@) == delim_before_blank(chars@, p as int, delim@),
        decreases chars.len() - p,
    {
        if matches_at(chars, delim, p) {
            *pos = p + delim.len();
            return Some(content);
        }
        if chars[p] == '\n' {
            if p + 1 < chars.len() && chars[p + 1] == '\n' {
                return None;
            }
        }
        content.push(chars[p]);
        p += 1;
        assert(content@ =~= chars@.subrange(start as int, p as int));
    }
    None
}

fn emphasis_node(kind: u8, inner: Vec<Inline>) -> (r: Inline)
    ensures
        inline_model(r) == emphasis_kind(kind as int, inlines_model(inner@)),
{
    if kind == 3 {
        Inline::BoldItalic(inner)
    } else if kind == 2 {
        Inline::Bold(inner)
    } else {
        Inline::Italic(inner)
    }
}

fn parse_emphasis(chars: &Vec<char>, pos: &mut usize, defs: &Vec<LinkDef>) -> (r: Inline)
    requires
        *old(pos) < chars.len(),
    ensures
        *final(pos) > *old(pos),
        *final(pos) <= chars.len(),
        defs@.len() == 0 ==> (inline_model(r), *final(pos) as int) == emphasis_at(
            chars@,
            *old(pos) as int,
            chars@[*old(pos) as int],
            3,
        ),
    decreases chars.len(), 0nat,
{
    let marker = chars[*pos];
    let start = *pos;
    let run = run_length(chars, start, marker);
    proof {
        lemma_run_end(chars@, start as int, marker, start + run);
    }
    let mut k: usize = 3;
    while k > 0
        invariant
            k <= 3,
            *pos == start,
            start == *old(pos),
            start < chars.len(),
            start + run <= chars.len(),
            marker == chars@[start as int],
            run_end(chars@, start as int, marker) == start + run,
            emphasis_at(chars@, start as int, marker, 3) == emphasis_at(chars@, start as int, marker, k as int),
        decreases k,
    {
        if run >= k && start + k <= chars.len() {
            let delim = repeat(marker, k);
            let mut p = start + k;
            match parse_until_delimiter(chars, &mut p, &delim) {
                Some(content) => {
                    *pos = p;
                    let inner = md_inlines(&content, defs);
                    proof {
                        let e = p - k;
                        lemma_delim_found(chars@, start + k, delim@);
                        assert(delim@ == repeat_spec(marker, k as nat));
                        assert(delim_before_blank(chars@, start + k, repeat_spec(marker, k as nat)) == Some(e as int));
                        assert(content@ == chars@.subrange(start + k, e as int));
                        assert(start + k <= e && e + k <= chars@.len());
                        assert(run_end(chars@, start as int, marker) - start >= k);
                        if defs@.len() == 0 {
                            assert(emphasis_at(chars@, start as int, marker, k as int) == (
                                emphasis_kind(k as int, md_model(chars@.subrange(start + k, e as int))),
                                p as int,
                            ));
                        }
                    }
                    return emphasis_node(k as u8, inner);
                },
                None => {},
            }
        }
        k -= 1;
    }
    *pos = start + 1;
    text_of(marker)
}

fn parse_tilde(chars: &Vec<char>, pos: &mut usize, defs: &Vec<LinkDef>) -> (r: Inline)
    requires
        *old(pos) < chars.len(),
    ensures
        *final(pos) > *old(pos),
        *final(pos) <= chars.len(),
        defs@.len() == 0 ==> (inline_model(r), *final(pos) as int) == tilde_at(chars@, *old(pos) as int),
    decreases chars.len(), 0nat,
{
    let start = *pos;
    proof {
        reveal_strlit("~~");
        reveal_strlit("~");
        assert(repeat_spec('~', 2) =~= "~~"@);
        assert(repeat_spec('~', 1) =~= "~"@);
    }
    if start + 1 < chars.len() && chars[start + 1] == '~' {
        let mut p = start + 2;
        let delim = repeat('~', 2);
        match parse_until_delimiter(chars, &mut p, &delim) {
            Some(content) => {
                *pos = p;
                proof {
                    lemma_delim_found(chars@, start + 2, delim@);
                }
                return Inline::Strikethrough(md_inlines(&content, defs));
            },
            None => {},
        }
    }
    let mut p = start + 1;
    let delim = repeat('~', 1);
    match parse_until_delimiter(chars, &mut p, &delim) {
        Some(content) => {
            *pos = p;
            proof {
                lemma_delim_found(chars@, start + 1, delim@);
            }
            return Inline::Subscript(md_inlines(&content, defs));
        },
        None => {},
    }
    *pos = start + 1;
    text_of('~')
}

fn parse_superscript(chars: &Vec<char>, pos: &mut usize, defs: &Vec<LinkDef>) -> (r: Inline)
    requires
        *old(pos) < chars.len(),
    ensures
        *final(pos) > *old(pos),
        *final(pos) <= chars.len(),
        defs@.len() == 0 ==> (inline_model(r), *final(pos) as int) == (match delimited_model(
            chars@,
            *old(pos) + 1,
            "^"@,
            2,
        ) {
            Some(x) => x,
            None => (char_text('^'), *old(pos) + 1),
        }),
    decreases chars.len(), 0nat,
{
    let start = *pos;
    proof {
        reveal_strlit("^");
        assert(repeat_spec('^', 1) =~= "^"@);
    }
    let mut p = start + 1;
    let delim = repeat('^', 1);
    match parse_until_delimiter(chars, &mut p, &delim) {
        Some(content) => {
            *pos = p;
            Inline::Superscript(md_inlines(&content, defs))
        },
        None => {
            *pos = start + 1;
            text_of('^')
        },
    }
}

/// Where the `]` that closes a bracket stands, scanning from `p` at nesting
/// `depth`; a backslash makes the next character plain.
pub open spec fn md_bracket_close(s: Seq<char>, p: int, depth: int) -> Option<int>
    decreases s.len() - p,
{
    if p < 0 || p >= s.len() {
        None
    } else if s[p] == '[' {
        md_bracket_close(s, p + 1, depth + 1)
    } else if s[p] == ']' {
        if depth - 1 == 0 {
            Some(p)
        } else {
            md_bracket_close(s, p + 1, depth - 1)
        }
    } else if s[p] == '\\' {
        if p + 1 >= s.len() {
            None
        } else {
            md_bracket_close(s, p + 2, depth)
        }
    } else {
        md_bracket_close(s, p + 1, depth)
    }
}

/// Scans a bracketed span that begins just after an opening bracket at
/// `text_start`; returns the index of the matching closing bracket.
fn scan_brackets(chars: &Vec<char>, text_start: usize) -> (r: Option<usize>)
    requires
        text_start >= 1,
        text_start <= chars.len(),
    ensures
        match r {
            Some(e) => text_start <= e < chars.len() && chars@[e as int] == ']',
            None => true,
        },
        r == (match md_bracket_close(chars@, text_start as int, 1) {
            Some(e) => Some(e as usize),
            None => None,
        }),
{
    let mut p = text_start;
    let mut depth: usize = 1;
    while p < chars.len() && depth > 0
        invariant
            text_start <= p,
            text_start >= 1,
            depth <= p - text_start + 1,
            p <= chars.len(),
            depth == 0 ==> p < chars.len() && chars@[p as int] == ']',
            depth > 0 ==> md_bracket_close(chars@, text_start as int, 1) == md_bracket_close(
                chars@,
                p as int,
                depth as int,
            ),
            depth == 0 ==> md_bracket_close(chars@, text_start as int, 1) == Some(p as int),
        decreases chars.len() - p, depth,
    {
        let c = chars[p];
        if c == '[' {
            depth = depth + 1;
        } else if c == ']' {
            depth = depth - 1;
        } else if c == '\\' {
            if p + 1 >= chars.len() {
                return None;
            }
            p = p + 1;
        }
        if depth > 0 {
            p = p + 1;
        }
    }
    if p >= chars.len() || depth != 0 {
        None
    } else {
        Some(p)
    }
}

/// Where the `)` that closes a parenthesis stands, scanning from `p` at
/// nesting `depth`.
pub open spec fn paren_close(s: Seq<char>, p: int, depth: int) -> Option<int>
    decreases s.len() - p,
{
    if p < 0 || p >= s.len() {
        None
    } else if s[p] == '(' {
        paren_close(s, p + 1, if depth < usize::MAX { depth + 1 } else { depth })
    } else if s[p] == ')' {
        if depth - 1 == 0 {
            Some(p)
        } else {
            paren_close(s, p + 1, depth - 1)
        }
    } else {
        paren_close(s, p + 1, depth)
    }
}

/// `i` is where ` "` first occurs in `raw`.
pub open spec fn title_start(raw: Seq<char>, i: int) -> bool {
    occurs_at(raw, " \""@, i) && forall|j: int| 0 <= j < i ==> !occurs_at(raw, " \""@, j)
}

/// What the inside of `( … )` from `start` gives: the URL, the title after
/// ` "` (its closing quotes dropped), and the index after the `)`.
pub open spec fn url_in_parens_of(s: Seq<char>, start: int, r: Option<(Seq<char>, Option<Seq<char>>)>, after: int) -> bool {
    match paren_close(s, start, 1) {
        None => r is None,
        Some(close) => {
            let raw = trim_spec(s.subrange(start, close));
            &&& after == close + 1
            &&& match r {
                Some((u, Some(title))) => exists|ts: int| #[trigger]
                    title_start(raw, ts) && u == raw.subrange(0, ts) && title == trim_end_char_spec(
                        raw.subrange(ts + 2, raw.len() as int),
                        '"',
                    ),
                Some((u, None)) => u == raw && forall|ts: int| !#[trigger] title_start(raw, ts),
                None => false,
            }
        },
    }
}

/// Parses the inside of `( … )` after the opening parenthesis: a URL and an
/// optional quoted title.
fn parse_url_in_parens(chars: &Vec<char>, pos: &mut usize) -> (r: Option<(Vec<char>, Option<Vec<char>>)>)
    ensures
        r is Some ==> *final(pos) > *old(pos) && *final(pos) <= chars.len(),
        r is None ==> *final(pos) == *old(pos),
        url_in_parens_of(
            chars@,
            *old(pos) as int,
            match r {
                Some((u, Some(t))) => Some((u@, Some(t@))),
                Some((u, None)) => Some((u@, None)),
                None => None,
            },
            *final(pos) as int,
        ),
{
    let start = *pos;
    let mut p = start;
    let mut depth: usize = 1;
    let mut url: Vec<char> = Vec::new();
    while p < chars.len() && depth > 0
        invariant
            start <= p,
            start == *old(pos),
            *pos == *old(pos),
            p == start ==> depth == 1,
            start <= chars.len() ==> p <= chars.len(),
            start > chars.len() ==> p == start,
            depth > 0 ==> paren_close(chars@, start as int, 1) == paren_close(chars@, p as int, depth as int),
            depth > 0 && start <= chars.len() ==> url@ == chars@.subrange(start as int, p as int),
            depth == 0 ==> p >= 1 && paren_close(chars@, start as int, 1) == Some(p - 1) && url@
                == chars@.subrange(start as int, p - 1),
        decreases chars.len() - p,
    {
        let c = chars[p];
        if c == '(' {
            if depth < usize::MAX {
                depth = depth + 1;
            }
            url.push('(');
        } else if c == ')' {
            depth = depth - 1;
            if depth > 0 {
                url.push(')');
            }
        } else {
            url.push(c);
        }
        p = p + 1;
        assert(depth > 0 ==> url@ =~= chars@.subrange(start as int, p as int));
        assert(depth == 0 ==> url@ =~= chars@.subrange(start as int, p - 1));
    }
    if depth != 0 {
        assert(paren_close(chars@, start as int, 1) is None);
        return None;
    }
    *pos = p;
    let raw = trim(&url);
    assert(paren_close(chars@, start as int, 1) == Some(p - 1));
    assert(raw@ == trim_spec(chars@.subrange(start as int, p - 1)));
    proof {
        reveal_strlit(" \"");
    }
    match find_lit(&raw, " \"") {
        Some(ts) => {
            assert(occurs_at(raw@, " \""@, ts as int));
            assert(ts + 2 <= raw@.len());
            assert(title_start(raw@, ts as int));
            let u = substring(&raw, 0, ts);
            let title = trim_end_char(&skip(&raw, ts + 2), '"');
            assert(url_in_parens_of(chars@, start as int, Some((u@, Some(title@))), p as int));
            Some((u, Some(title)))
        },
        None => {
            assert(forall|ts: int| !#[trigger] title_start(raw@, ts));
            assert(url_in_parens_of(chars@, start as int, Some((raw@, None)), p as int));
            Some((raw, None))
        },
    }
}

/// The views of a URL and an optional title.
pub open spec fn url_views(u: Option<(Vec<char>, Option<Vec<char>>)>) -> Option<(Seq<char>, Option<Seq<char>>)> {
    match u {
        Some((a, Some(t))) => Some((a@, Some(t@))),
        Some((a, None)) => Some((a@, None)),
        None => None,
    }
}

/// `cp` is where `)` last occurs in `s`.
pub open spec fn last_close_paren(s: Seq<char>, cp: int) -> bool {
    occurs_at(s, ")"@, cp) && forall|j: int| cp < j ==> !occurs_at(s, ")"@, j)
}

/// What `![alt](url)` written as a link's text gives: the alt text up to the
/// first `]`, then `(` right after it and the URL up to the last `)`.
pub open spec fn image_in_text(text: Seq<char>, r: Option<(Seq<char>, Seq<char>)>) -> bool {
    if !has_prefix(text, "!["@) {
        r is None
    } else {
        let rest = text.subrange(2, text.len() as int);
        match index_of_char(rest, ']') {
            None => r is None,
            Some(close) => {
                let after = rest.subrange(close + 1, rest.len() as int);
                if !(after.len() > 0 && after[0] == '(') {
                    r is None
                } else {
                    match r {
                        Some((alt, url)) => alt == rest.subrange(0, close) && exists|cp: int|
                            #[trigger] last_close_paren(after, cp) && cp >= 1 && url
                                == after.subrange(1, cp),
                        None => forall|cp: int| #[trigger] last_close_paren(after, cp) ==> cp < 1,
                    }
                }
            },
        }
    }
}

/// The views of a pair of texts.
pub open spec fn text_pair_views(r: Option<(Vec<char>, Vec<char>)>) -> Option<(Seq<char>, Seq<char>)> {
    match r {
        Some((a, b)) => Some((a@, b@)),
        None => None,
    }
}

/// `![alt](url)` written inside a link's text.
fn parse_image_from_text(text: &Vec<char>) -> (r: Option<(Vec<char>, Vec<char>)>)
    ensures
        match r {
            Some((alt, _)) => alt@.len() < text@.len(),
            None => true,
        },
        image_in_text(text@, text_pair_views(r)),
{
    if !starts_with_lit(text, "![") {
        return None;
    }
    proof {
        reveal_strlit("![");
    }
    let rest = skip(text, 2);
    proof {
        lemma_index_of_char(rest@, ']');
    }
    let close = match find_char(&rest, ']') {
        Some(c) => c,
        None => return None,
    };
    assert(index_of_char(rest@, ']') == Some(close as int));
    assert(rest@ == text@.subrange(2, text@.len() as int));
    let alt = substring(&rest, 0, close);
    let after = skip(&rest, close + 1);
    assert(after@ == rest@.subrange(close + 1, rest@.len() as int));
    if !first_is(&after, '(') {
        return None;
    }
    let paren = chars_of(")");
    let cp = match rfind(&after, &paren) {
        Some(c) => c,
        None => return None,
    };
    assert(last_close_paren(after@, cp as int));
    if cp < 1 {
        proof {
            assert forall|c: int| #[trigger] last_close_paren(after@, c) implies c < 1 by {
                if c > cp {
                } else if c < cp {
                    assert(!occurs_at(after@, ")"@, cp as int));
                }
            }
        }
        return None;
    }
    let url = substring(&after, 1, cp);
    Some((alt, url))
}

fn link_from_def(def: &LinkDef, text: &Vec<char>, defs: &Vec<LinkDef>) -> (r: Inline)
    decreases text@.len(), 3nat,
{
    let _ = def;
    let d = def;
    Inline::Link {
        url: string_of(&d.url),
        text: md_inlines(text, defs),
        title: match &d.title {
            Some(t) => Some(string_of(t)),
            None => None,
        },
    }
}

#[verifier::rlimit(100)]
fn parse_link_or_image(chars: &Vec<char>, pos: &mut usize, defs: &Vec<LinkDef>) -> (r: Inline)
    requires
        *old(pos) < chars.len(),
    ensures
        *final(pos) > *old(pos),
        *final(pos) <= chars.len(),
        defs@.len() == 0 ==> (inline_model(r), *final(pos) as int) == link_at(chars@, *old(pos) as int),
    decreases chars.len(), 0nat,
{
    let start = *pos;
    let text_start = start + 1;
    let close = match scan_brackets(chars, text_start) {
        Some(c) => c,
        None => {
            *pos = start + 1;
            return text_of('[');
        },
    };
    let text = substring(chars, text_start, close);
    proof {
        lemma_bracket_close_range(chars@, text_start as int, 1);
        assert(md_bracket_close(chars@, text_start as int, 1) == Some(close as int));
    }
    let mut p = close + 1;
    if starts_with_lit(&text, "![") && p < chars.len() && chars[p] == '(' {
        let im = parse_image_from_text(&text);
        proof {
            lemma_image_parts(text@, text_pair_views(im));
        }
        if let Some((img_alt, img_url)) = im {
            let mut q = p + 1;
            let ghost q0 = q;
            let u = parse_url_in_parens(chars, &mut q);
            proof {
                lemma_url_parts(
                    chars@,
                    q0 as int,
                    url_views(u),
                    q as int,
                );
            }
            if let Some((url, _title)) = u {
                *pos = q;
                let r = Inline::Image {
                    url: string_of(&img_url),
                    alt: md_inlines(&img_alt, defs),
                    title: None,
                    link: Some(string_of(&url)),
                };
                return r;
            }
        }
    }
    if p < chars.len() && chars[p] == '(' {
        let mut q = p + 1;
        let ghost q0 = q;
        let u = parse_url_in_parens(chars, &mut q);
        proof {
            lemma_url_parts(
                chars@,
                q0 as int,
                url_views(u),
                q as int,
            );
            if has_prefix(text@, "!["@) {
                lemma_image_parts(text@, image_parts(text@));
            }
        }
        if let Some((url, title)) = u {
            *pos = q;
            return Inline::Link {
                url: string_of(&url),
                text: md_inlines(&text, defs),
                title: match title {
                    Some(t) => Some(string_of(&t)),
                    None => None,
                },
            };
        }
    }
    let mut rc = p;
    if rc < chars.len() && chars[rc] == ' ' {
        rc = rc + 1;
    }
    if rc < chars.len() && chars[rc] == '[' {
        p = rc + 1;
        let ref_start = p;
        while p < chars.len() && chars[p] != ']'
            invariant
                ref_start <= p,
            decreases chars.len() - p,
        {
            p = p + 1;
        }
        if p < chars.len() {
            let ref_id = substring(chars, ref_start, p);
            let key = if ref_id.len() == 0 {
                lowercase_chars(&text)
            } else {
                lowercase_chars(&ref_id)
            };
            if let Some(i) = lookup_def(defs, &key) {
                *pos = p + 1;
                return link_from_def(&defs[i], &text, defs);
            }
        }
        *pos = start + 1;
        return text_of('[');
    }
    let key = lowercase_chars(&text);
    if let Some(i) = lookup_def(defs, &key) {
        *pos = p;
        return link_from_def(&defs[i], &text, defs);
    }
    *pos = start + 1;
    text_of('[')
}

fn parse_image(chars: &Vec<char>, pos: &mut usize, defs: &Vec<LinkDef>) -> (r: Inline)
    requires
        *old(pos) < chars.len(),
    ensures
        *final(pos) > *old(pos),
        *final(pos) <= chars.len(),
        defs@.len() == 0 ==> (inline_model(r), *final(pos) as int) == image_at(chars@, *old(pos) as int),
    decreases chars.len(), 0nat,
{
    let start = *pos;
    if !(start + 1 < chars.len() && chars[start + 1] == '[') {
        *pos = start + 1;
        return text_of('!');
    }
    let alt_start = start + 2;
    let close = match scan_brackets(chars, alt_start) {
        Some(c) => c,
        None => {
            *pos = start + 1;
            return text_of('!');
        },
    };
    let alt = substring(chars, alt_start, close);
    let mut p = close + 1;
    if p < chars.len() && chars[p] == '(' {
        let mut q = p + 1;
        let ghost q0 = q;
        let u = parse_url_in_parens(chars, &mut q);
        proof {
            lemma_url_parts(
                chars@,
                q0 as int,
                url_views(u),
                q as int,
            );
        }
        if let Some((url, title)) = u {
            *pos = q;
            let r = Inline::Image {
                url: string_of(&url),
                alt: md_inlines(&alt, defs),
                title: match title {
                    Some(t) => Some(string_of(&t)),
                    None => None,
                },
                link: None,
            };
            proof {
                lemma_bracket_close_range(chars@, alt_start as int, 1);
                assert(md_bracket_close(chars@, alt_start as int, 1) == Some(close as int));
                assert(alt@ == chars@.subrange(start + 2, close as int));
                if defs@.len() == 0 {
                    assert(image_at(chars@, start as int).1 == q);
                    assert(image_at(chars@, start as int).0 == inline_model(r));
                }
            }
            return r;
        }
    }
    if p < chars.len() && chars[p] == '[' {
        p = p + 1;
        let ref_start = p;
        while p < chars.len() && chars[p] != ']'
            invariant
                ref_start <= p,
            decreases chars.len() - p,
        {
            p = p + 1;
        }
        if p < chars.len() {
            let key = lowercase_chars(&substring(chars, ref_start, p));
            if let Some(i) = lookup_def(defs, &key) {
                *pos = p + 1;
                let d = &defs[i];
                return Inline::Image {
                    url: string_of(&d.url),
                    alt: md_inlines(&alt, defs),
                    title: match &d.title {
                        Some(t) => Some(string_of(t)),
                        None => None,
                    },
                    link: None,
                };
            }
        }
    }
    *pos = start + 1;
    text_of('!')
}

fn parse_line_break(chars: &Vec<char>, pos: &mut usize) -> (r: Inline)
    requires
        *old(pos) < chars.len(),
        chars@[*old(pos) as int] == '\n',
    ensures
        *final(pos) == *old(pos) + 1,
        (inline_model(r), *final(pos) as int) == md_step(chars@, *old(pos) as int),
{
    let p = *pos;
    *pos = p + 1;
    if p >= 2 && chars[p - 1] == ' ' && chars[p - 2] == ' ' {
        Inline::HardLineBreak
    } else {
        Inline::SoftLineBreak
    }
}

fn is_markdown_markup(c: char) -> (b: bool)
    ensures
        b == markdown_markup_char(c),
{
    c == '\\' || c == '`' || c == '*' || c == '_' || c == '~' || c == '^' || c == '[' || c == '!'
        || c == '<' || c == '\n'
}

fn parse_text(chars: &Vec<char>, pos: &mut usize) -> (r: Inline)
    requires
        *old(pos) < chars.len(),
    ensures
        *final(pos) > *old(pos),
        *final(pos) <= chars.len(),
        (forall|j: int| *old(pos) <= j < chars@.len() ==> !markdown_markup_char(#[trigger] chars@[j]))
            ==> *final(pos) == chars.len() && r is Text && text_of_inline(r) == chars@.subrange(
            *old(pos) as int,
            chars@.len() as int,
        ),
        (inline_model(r), *final(pos) as int) == ({
            let e = text_end(chars@, *old(pos) as int);
            if e == *old(pos) {
                (char_text(chars@[*old(pos) as int]), *old(pos) + 1)
            } else {
                (InlineModel::Text(chars@.subrange(*old(pos) as int, e)), e)
            }
        }),
{
    let start = *pos;
    let mut p = start;
    while p < chars.len() && !is_markdown_markup(chars[p])
        invariant
            start <= p <= chars.len(),
            forall|j: int| start <= j < p ==> !markdown_markup_char(#[trigger] chars@[j]),
            text_end(chars@, start as int) == text_end(chars@, p as int),
        decreases chars.len() - p,
    {
        p = p + 1;
    }
    if p == start {
        *pos = start + 1;
        return text_of(chars[start]);
    }
    *pos = p;
    Inline::Text(string_of(&substring(chars, start, p)))
}

} // verus!
