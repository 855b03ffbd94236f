//! Helpers that several readers and writers share.
use vstd::prelude::*;

use crate::error::ParseError;
use crate::ast::{Block, ColumnAlignment, DescriptionItem, Inline, ListItem, TableCell};
use crate::std_calls::to_lowercase;
use crate::text::{all_ws, is_digit_spec, is_ws_spec, leading_spec, lemma_index_of_char, lines_spec, trim_end_spec, trim_start_spec, without_ws, occurs_at, chars_of_string, copy, has_prefix, has_suffix, lines, matches_at, push_string, string_of, trim, trim_end, trim_end_char, trim_spec};

verus! {

/// An ASCII letter or digit.
pub open spec fn ascii_alnum(c: char) -> bool {
    is_digit_spec(c) || ('a' <= c && c <= 'z') || ('A' <= c && c <= 'Z')
}

/// A character that no reader takes as markup: an ASCII letter or digit, or
/// a space.
pub open spec fn plain_char(c: char) -> bool {
    ascii_alnum(c) || c == ' '
}

/// Some character of `t` is not a plain character.
pub open spec fn has_mark(t: Seq<char>) -> bool {
    exists|j: int| 0 <= j < t.len() && !plain_char(#[trigger] t[j])
}

/// A plain line: ASCII letters, digits and spaces, beginning and ending with
/// a letter or digit. Such a line starts no block and holds no markup in any
/// of the line formats.
pub open spec fn plain_line(l: Seq<char>) -> bool {
    &&& l.len() > 0
    &&& ascii_alnum(l[0])
    &&& ascii_alnum(l.last())
    &&& forall|i: int| 0 <= i < l.len() ==> plain_char(#[trigger] l[i])
}

/// A text that is one plain line, with or without a final newline.
pub open spec fn one_plain_line(s: Seq<char>) -> bool {
    plain_line(s) || (s.len() > 0 && s.last() == '\n' && plain_line(s.drop_last()))
}

/// A text without its final newline, if it has one.
pub open spec fn line_body(s: Seq<char>) -> Seq<char> {
    if s.len() > 0 && s.last() == '\n' {
        s.drop_last()
    } else {
        s
    }
}

pub proof fn lemma_prefix_head(s: Seq<char>, p: Seq<char>)
    ensures
        has_prefix(s, p) && p.len() > 0 ==> s.len() > 0 && s[0] == p[0],
{
    if has_prefix(s, p) && p.len() > 0 {
        assert(s.subrange(0, p.len() as int)[0] == s[0]);
    }
}

pub proof fn lemma_without_ws_sub(s: Seq<char>)
    ensures
        forall|k: int|
            0 <= k < without_ws(s).len() ==> exists|j: int| 0 <= j < s.len() && s[j] == #[trigger] without_ws(s)[k],
    decreases s.len(),
{
    if s.len() > 0 {
        let d = s.drop_last();
        lemma_without_ws_sub(d);
        assert forall|k: int| 0 <= k < without_ws(s).len() implies exists|j: int|
            0 <= j < s.len() && s[j] == #[trigger] without_ws(s)[k] by {
            if k < without_ws(d).len() {
                let j = choose|j: int| 0 <= j < d.len() && d[j] == #[trigger] without_ws(d)[k];
                assert(s[j] == d[j]);
                assert(without_ws(s)[k] == without_ws(d)[k]);
            } else {
                assert(s[s.len() - 1] == without_ws(s)[k]);
            }
        }
    }
}

/// What reading plain text gives: nothing for no text, else one text inline
/// holding all of it.
pub open spec fn reads_as_plain_text(r: Seq<Inline>, s: Seq<char>) -> bool {
    if s.len() == 0 {
        r.len() == 0
    } else {
        r.len() == 1 && r[0] is Text && text_of_inline(r[0]) == s
    }
}

/// Reading gave one paragraph that holds `l` as its one text.
pub open spec fn reads_as_plain_paragraph(r: Result<Vec<Block>, ParseError>, l: Seq<char>) -> bool {
    r matches Ok(b) && plain_paragraph(b@, l)
}

/// The blocks are one paragraph that holds `l` as its one text.
pub open spec fn plain_paragraph(b: Seq<Block>, l: Seq<char>) -> bool {
    b.len() == 1 && (b[0] matches Block::Paragraph { content } && reads_as_plain_text(content@, l))
}

/// Reading gave one heading of level `k` that holds `l` as its one text.
pub open spec fn plain_heading(b: Seq<Block>, k: nat, l: Seq<char>) -> bool {
    b.len() == 1 && (b[0] matches Block::Heading { level, content } && level == k && reads_as_plain_text(
        content@,
        l,
    ))
}

/// A text that starts with `p`, where `p` holds a character that is not
/// plain at `k`, holds one too.
pub proof fn lemma_prefix_mark(s: Seq<char>, p: Seq<char>, k: int)
    requires
        0 <= k < p.len(),
        !plain_char(p[k]),
    ensures
        has_prefix(s, p) ==> has_mark(s),
{
    if has_prefix(s, p) {
        assert(s.subrange(0, p.len() as int)[k] == s[k]);
        assert(!plain_char(s[k]));
    }
}

/// What a plain line is as text: its own trimmed form, not blank, without a
/// mark, one line, and not led by any character that is not plain.
pub proof fn lemma_plain_line_text(l: Seq<char>)
    requires
        plain_line(l),
    ensures
        trim_start_spec(l) == l,
        trim_spec(l) == l,
        !all_ws(l),
        !has_mark(l),
        leading_spec(l, ' ') == 0,
        forall|c: char| !plain_char(c) ==> #[trigger] leading_spec(l, c) == 0,
        lines_spec(l) == seq![l],
        lines_spec(l.push('\n')) == seq![l],
{
    assert(trim_start_spec(l) == l);
    assert(trim_end_spec(l) == l);
    assert(!is_ws_spec(l[0]));
    lemma_index_of_char(l, '\n');
    let s = l.push('\n');
    lemma_index_of_char(s, '\n');
    assert(s[l.len() as int] == '\n');
    assert(s.subrange(0, l.len() as int) =~= l);
    assert(s.subrange(l.len() as int + 1, s.len() as int) =~= Seq::<char>::empty());
    assert(lines_spec(Seq::<char>::empty()) == Seq::<Seq<char>>::empty());
    assert(seq![l] + Seq::<Seq<char>>::empty() =~= seq![l]);
}


/// The number of consecutive copies of `c` in `chars` from index `start`.
pub(crate) fn run_length(chars: &Vec<char>, start: usize, c: char) -> (n: usize)
    ensures
        start <= chars@.len() ==> start + n <= chars@.len(),
        start > chars@.len() ==> n == 0,
        forall|j: int| start <= j < start + n ==> chars@[j] == c,
        start + n < chars@.len() ==> chars@[start + n] != c,
        start < chars@.len() && chars@[start as int] == c ==> n >= 1,
{
    let mut p = start;
    while p < chars.len() && chars[p] == c
        invariant
            start <= p,
            start <= chars@.len() ==> p <= chars@.len(),
            start > chars@.len() ==> p == start,
            forall|j: int| start <= j < p ==> chars@[j] == c,
        decreases chars@.len() - p,
    {
        p = p + 1;
    }
    p - start
}

/// The number of characters of `s` equal to `c`.
pub(crate) fn count_char(s: &Vec<char>, c: char) -> (n: usize)
    ensures
        n <= s@.len(),
        n == char_count(s@, c),
{
    let mut n: usize = 0;
    let mut i: usize = 0;
    while i < s.len()
        invariant
            i <= s.len(),
            n <= i,
            n == char_count(s@.subrange(0, i as int), c),
        decreases s.len() - i,
    {
        assert(s@.subrange(0, i + 1).drop_last() =~= s@.subrange(0, i as int));
        if s[i] == c {
            n = n + 1;
        }
        i += 1;
    }
    assert(s@.subrange(0, s@.len() as int) =~= s@);
    n
}

/// The Unicode lowercase of `v` (`str::to_lowercase`).
pub(crate) fn lowercase_chars(v: &Vec<char>) -> (r: Vec<char>)
    ensures
        r@ == crate::std_calls::lowercase(v@),
{
    let s = string_of(v);
    let l = to_lowercase(s.as_str());
    chars_of_string(&l)
}

/// No two neighbouring inlines are both text.
pub open spec fn no_adjacent_text(s: Seq<Inline>) -> bool {
    forall|i: int| 0 <= i < s.len() - 1 ==> !(#[trigger] s[i] is Text && s[i + 1] is Text)
}

/// The text of a text inline; nothing for any other inline.
pub open spec fn text_of_inline(x: Inline) -> Seq<char> {
    match x {
        Inline::Text(t) => t@,
        _ => seq![],
    }
}

/// Appending `inl` after `s` joins it with the text that ends `s`.
pub open spec fn joins_text(s: Seq<Inline>, inl: Inline) -> bool {
    inl is Text && s.len() > 0 && s.last() is Text
}

/// A soft or hard line break.
pub open spec fn is_line_break(x: Inline) -> bool {
    x is SoftLineBreak || x is HardLineBreak
}

/// Appends `inl` to `result`, joining it with a text inline that ends
/// `result` if both are text.
pub(crate) fn push_merged(result: &mut Vec<Inline>, inl: Inline)
    requires
        no_adjacent_text(old(result)@),
    ensures
        no_adjacent_text(final(result)@),
        final(result)@.len() >= 1,
        !joins_text(old(result)@, inl) ==> final(result)@ == old(result)@.push(inl),
        joins_text(old(result)@, inl) ==> {
            &&& final(result)@.len() == old(result)@.len()
            &&& final(result)@.drop_last() == old(result)@.drop_last()
            &&& final(result)@.last() is Text
            &&& text_of_inline(final(result)@.last()) == text_of_inline(old(result)@.last()) + text_of_inline(inl)
        },
{
    let n = result.len();
    let merge = match &inl {
        Inline::Text(_) => n > 0 && matches!(result[n - 1], Inline::Text(_)),
        _ => false,
    };
    if merge {
        let prev = result.pop().unwrap();
        let mut joined: Vec<char> = Vec::new();
        match &prev {
            Inline::Text(p) => push_string(&mut joined, p),
            _ => {},
        }
        match &inl {
            Inline::Text(t) => push_string(&mut joined, t),
            _ => {},
        }
        let ghost before = result@;
        assert(joined@ == text_of_inline(old(result)@.last()) + text_of_inline(inl));
        result.push(Inline::Text(string_of(&joined)));
        assert(result@.drop_last() =~= old(result)@.drop_last());
        assert forall|i: int| 0 <= i < result@.len() - 1 implies !(#[trigger] result@[i] is Text
            && result@[i + 1] is Text) by {
            if i < result@.len() - 2 {
                assert(result@[i] == old(result)@[i]);
                assert(result@[i + 1] == old(result)@[i + 1]);
            } else {
                assert(result@[i] == old(result)@[i]);
                assert(old(result)@[i + 1] is Text);
            }
        }
    } else {
        result.push(inl);
        assert forall|i: int| 0 <= i < result@.len() - 1 implies !(#[trigger] result@[i] is Text
            && result@[i + 1] is Text) by {
            assert(result@[i] == old(result)@[i]);
            if i < result@.len() - 2 {
                assert(result@[i + 1] == old(result)@[i + 1]);
            }
        }
    }
}


/// Removes trailing whitespace from every text inline that a line break
/// follows.
pub(crate) fn strip_trailing_spaces_before_breaks(result: &mut Vec<Inline>)
    requires
        no_adjacent_text(old(result)@),
    ensures
        no_adjacent_text(final(result)@),
        final(result)@.len() == old(result)@.len(),
        forall|j: int|
            0 <= j < old(result)@.len() && !(j + 1 < old(result)@.len() && is_line_break(
                old(result)@[j + 1],
            ) && old(result)@[j] is Text) ==> #[trigger] final(result)@[j] == old(result)@[j],
        forall|j: int|
            0 <= j < old(result)@.len() && j + 1 < old(result)@.len() && is_line_break(
                old(result)@[j + 1],
            ) && old(result)@[j] is Text ==> (#[trigger] final(result)@[j]) is Text && text_of_inline(
                final(result)@[j],
            ) == crate::text::trim_end_spec(text_of_inline(old(result)@[j])),
{
    let mut i: usize = 0;
    while i < result.len()
        invariant
            i <= result@.len(),
            result@.len() == old(result)@.len(),
            forall|j: int| 0 <= j < result@.len() ==> (#[trigger] result@[j] is Text) == (
            old(result)@[j] is Text),
            forall|j: int| i <= j < result@.len() ==> #[trigger] result@[j] == old(result)@[j],
            forall|j: int|
                0 <= j < i && !(j + 1 < old(result)@.len() && is_line_break(old(result)@[j + 1])
                    && old(result)@[j] is Text) ==> #[trigger] result@[j] == old(result)@[j],
            forall|j: int|
                0 <= j < i && j + 1 < old(result)@.len() && is_line_break(old(result)@[j + 1])
                    && old(result)@[j] is Text ==> (#[trigger] result@[j]) is Text && text_of_inline(
                    result@[j],
                ) == crate::text::trim_end_spec(text_of_inline(old(result)@[j])),
        decreases result@.len() - i,
    {
        if i + 1 < result.len() {
            let is_break = matches!(result[i + 1], Inline::SoftLineBreak | Inline::HardLineBreak);
            if is_break {
                let replacement = match &result[i] {
                    Inline::Text(t) => {
                        let v = chars_of_string(t);
                        Some(string_of(&trim_end(&v)))
                    },
                    _ => None,
                };
                match replacement {
                    Some(s) => {
                        result.set(i, Inline::Text(s));
                    },
                    None => {},
                }
            }
        }
        i += 1;
    }
    assert forall|k: int| 0 <= k < result@.len() - 1 implies !(#[trigger] result@[k] is Text
        && result@[k + 1] is Text) by {
        assert(result@[k] is Text == old(result)@[k] is Text);
        assert(result@[k + 1] is Text == old(result)@[k + 1] is Text);
    }
}

/// The number of logical columns of a header row: the sum of the column spans,
/// and at least the number of cells.
pub(crate) fn count_logical_columns(headers: &Vec<TableCell>) -> (n: usize)
    ensures
        n >= headers@.len(),
{
    let mut sum: usize = 0;
    let mut i: usize = 0;
    while i < headers.len()
        invariant
            i <= headers.len(),
        decreases headers.len() - i,
    {
        let c = headers[i].colspan as usize;
        if sum > usize::MAX - c {
            sum = usize::MAX;
        } else {
            sum = sum + c;
        }
        i += 1;
    }
    if sum > headers.len() {
        sum
    } else {
        headers.len()
    }
}

/// `n` default alignments.
pub(crate) fn default_alignments(n: usize) -> (v: Vec<ColumnAlignment>)
    ensures
        v@.len() == n,
        forall|i: int| 0 <= i < n ==> v@[i] == ColumnAlignment::Default,
{
    let mut v: Vec<ColumnAlignment> = Vec::new();
    let mut i: usize = 0;
    while i < n
        invariant
            i <= n,
            v@.len() == i,
            forall|j: int| 0 <= j < i ==> v@[j] == ColumnAlignment::Default,
        decreases n - i,
    {
        v.push(ColumnAlignment::Default);
        i += 1;
    }
    v
}

/// A list item holding one empty paragraph.
pub(crate) fn empty_item() -> ListItem {
    paragraph_item(Vec::new())
}

/// A list item holding one paragraph with the given content.
pub(crate) fn paragraph_item(content: Vec<Inline>) -> (item: ListItem)
    ensures
        item.content@.len() == 1,
{
    let mut blocks: Vec<Block> = Vec::new();
    blocks.push(Block::Paragraph { content });
    ListItem { content: blocks }
}

/// `after` is `before` with a soft break and `extra` appended to the
/// paragraph that ends the last item, where the last item ends with one;
/// otherwise `after` is `before`.
pub open spec fn continued_items(before: Seq<ListItem>, after: Seq<ListItem>, extra: Seq<Inline>) -> bool {
    if before.len() == 0 {
        after == before
    } else {
        let old_blocks = before.last().content@;
        let new_blocks = after.last().content@;
        &&& after.len() == before.len()
        &&& after.drop_last() == before.drop_last()
        &&& if old_blocks.len() > 0 && old_blocks.last() is Paragraph {
            &&& new_blocks.len() == old_blocks.len()
            &&& new_blocks.drop_last() == old_blocks.drop_last()
            &&& match (old_blocks.last(), new_blocks.last()) {
                (Block::Paragraph { content: c0 }, Block::Paragraph { content: c1 }) => c1@
                    == c0@.push(Inline::SoftLineBreak) + extra,
                _ => false,
            }
        } else {
            new_blocks == old_blocks
        }
    }
}

/// Appends a soft break and `extra` to the paragraph that ends the last item,
/// if the last item ends with a paragraph.
pub(crate) fn continue_last_item(items: &mut Vec<ListItem>, extra: Vec<Inline>)
    ensures
        final(items)@.len() == old(items)@.len(),
        continued_items(old(items)@, final(items)@, extra@),
{
    if items.len() == 0 {
        return;
    }
    let ghost before = items@;
    let mut item = items.pop().unwrap();
    if item.content.len() > 0 {
        let ghost blocks = item.content@;
        let b = item.content.pop().unwrap();
        match b {
            Block::Paragraph { mut content } => {
                let ghost c0 = content@;
                content.push(Inline::SoftLineBreak);
                let mut extra = extra;
                let ghost ex = extra@;
                content.append(&mut extra);
                assert(content@ == c0.push(Inline::SoftLineBreak) + ex);
                item.content.push(Block::Paragraph { content });
                items.push(item);
                assert(items@.drop_last() =~= before.drop_last());
                assert(items@.last().content@.drop_last() =~= blocks.drop_last());
            },
            other => {
                item.content.push(other);
                assert(item.content@ =~= blocks);
                items.push(item);
                assert(items@.drop_last() =~= before.drop_last());
            },
        }
    } else {
        items.push(item);
        assert(items@.drop_last() =~= before.drop_last());
    }
}

/// Appends `block` to the content of the last item, if there is one.
pub(crate) fn push_to_last_item(items: &mut Vec<ListItem>, block: Block)
    ensures
        final(items)@.len() == old(items)@.len(),
{
    if items.len() == 0 {
        return;
    }
    let mut item = items.pop().unwrap();
    item.content.push(block);
    items.push(item);
}

/// The text ends with a newline that no other newline precedes.
pub open spec fn ends_with_single_newline(s: Seq<char>) -> bool {
    &&& s.len() >= 1
    &&& s.last() == '\n'
    &&& (s.len() >= 2 ==> s[s.len() - 2] != '\n')
}

/// The output made to end with a blank line, unless it is empty.
pub open spec fn with_blank_line(out: Seq<char>) -> Seq<char> {
    if out.len() == 0 {
        out
    } else if out.len() >= 2 && out[out.len() - 1] == '\n' && out[out.len() - 2] == '\n' {
        out
    } else if out[out.len() - 1] == '\n' {
        out.push('\n')
    } else {
        out.push('\n').push('\n')
    }
}

/// Makes the output end with a blank line, unless it is empty.
pub fn ensure_blank_line(out: &mut Vec<char>)
    ensures
        final(out)@ == with_blank_line(old(out)@),
        old(out)@.len() == 0 ==> final(out)@ == old(out)@,
        old(out)@.len() > 0 ==> has_suffix(final(out)@, seq!['\n', '\n']),
        has_prefix(final(out)@, old(out)@),
{
    if out.len() == 0 {
        assert(out@.subrange(0, 0) =~= out@);
        return;
    }
    let n = out.len();
    if n >= 2 && out[n - 1] == '\n' && out[n - 2] == '\n' {
        assert(out@.subrange(n - 2, n as int) =~= seq!['\n', '\n']);
        assert(out@.subrange(0, n as int) =~= out@);
        return;
    }
    let ghost o = out@;
    if out[n - 1] == '\n' {
        out.push('\n');
    } else {
        out.push('\n');
        out.push('\n');
    }
    assert(out@.subrange(out@.len() - 2, out@.len() as int) =~= seq!['\n', '\n']);
    assert(out@.subrange(0, o.len() as int) =~= o);
}

/// The output without its trailing newlines, followed by one newline.
pub open spec fn finished(out: Seq<char>) -> Seq<char> {
    crate::text::trim_end_char_spec(out, '\n').push('\n')
}

/// The output without its trailing newlines, followed by one newline.
pub fn finish_output(out: &Vec<char>) -> (s: String)
    ensures
        s@ == finished(out@),
        ends_with_single_newline(s@),
        exists|k: int| 0 <= k <= out@.len() && s@ == out@.subrange(0, k).push('\n'),
{
    let mut t = trim_end_char(out, '\n');
    t.push('\n');
    string_of(&t)
}


/// Some cell of the table spans more than one column or row.
pub open spec fn table_spans(headers: Seq<TableCell>, rows: Seq<Vec<TableCell>>) -> bool {
    (exists|i: int| 0 <= i < headers.len() && (#[trigger] headers[i]).spans()) || (exists|
        r: int,
        c: int,
    | 0 <= r < rows.len() && 0 <= c < rows[r]@.len() && (#[trigger] rows[r]@[c]).spans())
}

/// Whether some cell of a table spans more than one column or row.
pub(crate) fn table_has_spans(headers: &Vec<TableCell>, rows: &Vec<Vec<TableCell>>) -> (b: bool)
    ensures
        b == table_spans(headers@, rows@),
        b == (exists|i: int| 0 <= i < headers@.len() && (#[trigger] headers@[i]).spans()) || (
        exists|r: int, c: int|
            0 <= r < rows@.len() && 0 <= c < rows@[r]@.len() && (#[trigger] rows@[r]@[c]).spans()),
{
    let mut i: usize = 0;
    while i < headers.len()
        invariant
            i <= headers.len(),
            forall|j: int| 0 <= j < i ==> !(#[trigger] headers@[j]).spans(),
        decreases headers.len() - i,
    {
        if headers[i].has_span() {
            assert(headers@[i as int].spans());
            return true;
        }
        i += 1;
    }
    let mut r: usize = 0;
    while r < rows.len()
        invariant
            r <= rows.len(),
            forall|j: int| 0 <= j < headers@.len() ==> !(#[trigger] headers@[j]).spans(),
            forall|a: int, c: int|
                0 <= a < r && 0 <= c < rows@[a]@.len() ==> !(#[trigger] rows@[a]@[c]).spans(),
        decreases rows.len() - r,
    {
        let row = &rows[r];
        let mut c: usize = 0;
        while c < row.len()
            invariant
                c <= row.len(),
                r < rows@.len(),
                row@ == rows@[r as int]@,
                forall|k: int| 0 <= k < c ==> !(#[trigger] row@[k]).spans(),
            decreases row.len() - c,
        {
            if row[c].has_span() {
                assert(rows@[r as int]@[c as int].spans());
                return true;
            }
            c += 1;
        }
        assert forall|a: int, c: int|
            0 <= a < r + 1 && 0 <= c < rows@[a]@.len() implies !(#[trigger] rows@[a]@[c]).spans() by {
            if a == r {
                assert(row@[c] == rows@[a]@[c]);
            }
        }
        r += 1;
    }
    false
}

/// What fills a column of a table row laid out on a grid.
#[derive(Clone, Copy, PartialEq, Eq, Structural)]
pub enum GridSlot {
    /// Nothing: the row had no cell left for this column.
    Free,
    /// Covered by a spanning cell, written as an empty cell.
    Covered,
    /// The cell at this index of the row.
    Cell(usize),
}

/// A grid of `rows` rows of `cols` unset flags.
pub(crate) fn bool_grid(rows: usize, cols: usize) -> (g: Vec<Vec<bool>>)
    ensures
        g@.len() == rows,
        grid_view(g@) == empty_grid(rows as nat, cols as nat),
{
    let mut g: Vec<Vec<bool>> = Vec::new();
    let mut r: usize = 0;
    while r < rows
        invariant
            r <= rows,
            g@.len() == r,
            grid_view(g@) == empty_grid(r as nat, cols as nat),
        decreases rows - r,
    {
        let mut row: Vec<bool> = Vec::new();
        let mut c: usize = 0;
        while c < cols
            invariant
                c <= cols,
                row@ == Seq::new(c as nat, |j: int| false),
            decreases cols - c,
        {
            row.push(false);
            c += 1;
            assert(row@ =~= Seq::new(c as nat, |j: int| false));
        }
        let ghost gb = g@;
        g.push(row);
        r += 1;
        assert forall|i: int| 0 <= i < r implies #[trigger] grid_view(g@)[i] == empty_grid(r as nat, cols as nat)[i] by {
            if i < r - 1 {
                assert(g@[i] == gb[i]);
                assert(grid_view(gb)[i] == empty_grid((r - 1) as nat, cols as nat)[i]);
            } else {
                assert(g@[i]@ =~= Seq::new(cols as nat, |j: int| false));
            }
        }
        assert(grid_view(g@) =~= empty_grid(r as nat, cols as nat));
    }
    g
}

/// The flags of a grid of rows.
pub open spec fn grid_view(g: Seq<Vec<bool>>) -> Seq<Seq<bool>> {
    Seq::new(g.len(), |i: int| g[i]@)
}

/// A grid of `rows` rows of `cols` unset flags.
pub open spec fn empty_grid(rows: nat, cols: nat) -> Seq<Seq<bool>> {
    Seq::new(rows, |i: int| Seq::new(cols, |j: int| false))
}

/// The flag at row `r`, column `c`, unset where the grid has none.
pub open spec fn grid_at(g: Seq<Seq<bool>>, r: int, c: int) -> bool {
    0 <= r < g.len() && 0 <= c < g[r].len() && g[r][c]
}

/// The grid with the flag at row `r`, column `c` set, where it is there.
pub open spec fn grid_with(g: Seq<Seq<bool>>, r: int, c: int) -> Seq<Seq<bool>> {
    if 0 <= r < g.len() && 0 <= c < g[r].len() {
        g.update(r, g[r].update(c, true))
    } else {
        g
    }
}

/// Sets the flag at row `r`, column `c` of the grid, if it is there.
pub(crate) fn grid_set(g: &mut Vec<Vec<bool>>, r: usize, c: usize)
    ensures
        final(g)@.len() == old(g)@.len(),
        r < old(g)@.len() && c < old(g)@[r as int]@.len() ==> final(g)@ == old(g)@.update(
            r as int,
            final(g)@[r as int],
        ) && final(g)@[r as int]@ == old(g)@[r as int]@.update(c as int, true),
        !(r < old(g)@.len() && c < old(g)@[r as int]@.len()) ==> final(g)@ == old(g)@,
{
    if r < g.len() && c < g[r].len() {
        let mut row: Vec<bool> = Vec::new();
        let mut k: usize = 0;
        while k < g[r].len()
            invariant
                k <= g[r as int]@.len(),
                r < g@.len(),
                c < g[r as int]@.len(),
                g@ == old(g)@,
                row@ == old(g)@[r as int]@.update(c as int, true).subrange(0, k as int),
            decreases g[r as int]@.len() - k,
        {
            row.push(g[r][k] || k == c);
            k += 1;
            assert(row@ =~= old(g)@[r as int]@.update(c as int, true).subrange(0, k as int));
        }
        assert(row@ =~= old(g)@[r as int]@.update(c as int, true));
        g.set(r, row);
    }
}

/// Whether the flag at row `r`, column `c` is set.
pub(crate) fn grid_get(g: &Vec<Vec<bool>>, r: usize, c: usize) -> (b: bool)
    ensures
        b == grid_at(grid_view(g@), r as int, c as int),
{
    r < g.len() && c < g[r].len() && g[r][c]
}

/// Sets the flag at row `r`, column `c` of the grid, if it is there.
pub(crate) fn grid_mark(g: &mut Vec<Vec<bool>>, r: usize, c: usize)
    ensures
        final(g)@.len() == old(g)@.len(),
        grid_view(final(g)@) == grid_with(grid_view(old(g)@), r as int, c as int),
{
    let ghost before = grid_view(g@);
    grid_set(g, r, c);
    assert(grid_view(g@) =~= grid_with(before, r as int, c as int));
}

/// The grid with the flags of columns `col + c` (`c` from `c0` below `cs`,
/// columns below `n`) set in row `rr`.
pub open spec fn mark_cols(g: Seq<Seq<bool>>, rr: int, col: int, cs: int, n: int, c0: int) -> Seq<Seq<bool>>
    decreases cs - c0,
{
    if c0 >= cs {
        g
    } else {
        let g2 = if c0 < n - col { grid_with(g, rr, col + c0) } else { g };
        mark_cols(g2, rr, col, cs, n, c0 + 1)
    }
}

/// The grid with the rows `row + r` (`r` from `r0` below `rs`, rows of the
/// grid) marked over the `cs` columns from `col`.
pub open spec fn mark_rows(g: Seq<Seq<bool>>, row: int, col: int, cs: int, rs: int, n: int, r0: int) -> Seq<Seq<bool>>
    decreases rs - r0,
{
    if r0 >= rs {
        g
    } else {
        let g2 = if r0 < g.len() && row < g.len() - r0 { mark_cols(g, row + r0, col, cs, n, 0) } else { g };
        mark_rows(g2, row, col, cs, rs, n, r0 + 1)
    }
}

/// The slots with those of columns `col + c` (`c` from `c0` below `cs`,
/// columns below `n`) covered.
pub open spec fn cover_slots(slots: Seq<GridSlot>, col: int, cs: int, n: int, c0: int) -> Seq<GridSlot>
    decreases cs - c0,
{
    if c0 >= cs {
        slots
    } else {
        let s2 = if c0 < n - col { slots.update(col + c0, GridSlot::Covered) } else { slots };
        cover_slots(s2, col, cs, n, c0 + 1)
    }
}

/// The slots of a row of `cells` laid out on `n` columns from column `col`,
/// with the cells from `idx` on left to place, and the grid after it: a
/// column that the grid marks is covered; otherwise the next cell takes it,
/// covers the columns its column span reaches (the next cell comes after
/// them) and marks the rows its row span reaches; the layout stops when no
/// cell is left.
pub open spec fn expand_from(
    cells: Seq<TableCell>,
    row: int,
    g: Seq<Seq<bool>>,
    n: int,
    col: int,
    idx: int,
    slots: Seq<GridSlot>,
) -> (Seq<GridSlot>, Seq<Seq<bool>>)
    decreases n - col,
{
    if col >= n || col < 0 {
        (slots, g)
    } else if grid_at(g, row, col) {
        expand_from(cells, row, g, n, col + 1, idx, slots.update(col, GridSlot::Covered))
    } else if idx >= cells.len() || idx < 0 {
        (slots, g)
    } else {
        let cs = cells[idx].colspan as int;
        let rs = cells[idx].rowspan as int;
        let s2 = cover_slots(slots.update(col, GridSlot::Cell(idx as usize)), col, cs, n, 1);
        let g2 = mark_rows(g, row, col, cs, rs, n, 1);
        let next = if cs > 1 {
            if cs < n - col { col + cs } else { n }
        } else {
            col + 1
        };
        expand_from(cells, row, g2, n, next, idx + 1, s2)
    }
}

/// The slots of a row laid out on `n` columns over the grid `g`, and the grid
/// after it.
pub open spec fn expand_spec(cells: Seq<TableCell>, row: int, g: Seq<Seq<bool>>, n: int) -> (Seq<GridSlot>, Seq<Seq<bool>>) {
    expand_from(cells, row, g, n, 0, 0, Seq::new(n as nat, |j: int| GridSlot::Free))
}

/// Lays the cells of row `row_idx` out on `num_cols` columns: a column that a
/// row span from above covers is skipped, each cell takes the next free
/// column, the columns that its column span reaches are left empty and the
/// next cell comes after them, and the rows that its row span reaches are
/// marked.
pub(crate) fn expand_row(cells: &Vec<TableCell>, row_idx: usize, occupied: &mut Vec<Vec<bool>>, num_cols: usize) -> (slots: Vec<GridSlot>)
    ensures
        slots@.len() == num_cols,
        final(occupied)@.len() == old(occupied)@.len(),
        (slots@, grid_view(final(occupied)@)) == expand_spec(cells@, row_idx as int, grid_view(old(occupied)@), num_cols as int),
{
    let ghost g0 = grid_view(occupied@);
    let mut slots: Vec<GridSlot> = Vec::new();
    let mut k: usize = 0;
    while k < num_cols
        invariant
            k <= num_cols,
            slots@ == Seq::new(k as nat, |j: int| GridSlot::Free),
        decreases num_cols - k,
    {
        slots.push(GridSlot::Free);
        k += 1;
        assert(slots@ =~= Seq::new(k as nat, |j: int| GridSlot::Free));
    }
    let ghost target = expand_spec(cells@, row_idx as int, g0, num_cols as int);
    let mut cell_idx: usize = 0;
    let mut col: usize = 0;
    while col < num_cols
        invariant_except_break
            expand_from(cells@, row_idx as int, grid_view(occupied@), num_cols as int, col as int, cell_idx as int, slots@) == target,
        invariant
            col <= num_cols,
            slots@.len() == num_cols,
            occupied@.len() == old(occupied)@.len(),
            cell_idx <= cells@.len(),
        ensures
            (slots@, grid_view(occupied@)) == target,
        decreases num_cols - col,
    {
        if grid_get(occupied, row_idx, col) {
            slots.set(col, GridSlot::Covered);
            col += 1;
            continue;
        }
        if cell_idx >= cells.len() {
            break;
        }
        let colspan = cells[cell_idx].colspan as usize;
        let rowspan = cells[cell_idx].rowspan as usize;
        let ghost gs = grid_view(occupied@);
        slots.set(col, GridSlot::Cell(cell_idx));
        let ghost s1 = slots@;
        let mut c: usize = 1;
        while c < colspan
            invariant
                slots@.len() == num_cols,
                col < num_cols,
                1 <= c,
                cover_slots(slots@, col as int, colspan as int, num_cols as int, c as int) == cover_slots(
                    s1,
                    col as int,
                    colspan as int,
                    num_cols as int,
                    1,
                ),
            decreases colspan - c,
        {
            if c < num_cols - col {
                slots.set(col + c, GridSlot::Covered);
            }
            c += 1;
        }
        let mut r: usize = 1;
        while r < rowspan
            invariant
                occupied@.len() == old(occupied)@.len(),
                col < num_cols,
                1 <= r,
                mark_rows(grid_view(occupied@), row_idx as int, col as int, colspan as int, rowspan as int, num_cols as int, r as int)
                    == mark_rows(gs, row_idx as int, col as int, colspan as int, rowspan as int, num_cols as int, 1),
            decreases rowspan - r,
        {
            if r < occupied.len() && row_idx < occupied.len() - r {
                let ghost gr = grid_view(occupied@);
                let mut c2: usize = 0;
                while c2 < colspan
                    invariant
                        occupied@.len() == old(occupied)@.len(),
                        col < num_cols,
                        r < occupied.len(),
                        row_idx < occupied.len() - r,
                        mark_cols(grid_view(occupied@), row_idx + r, col as int, colspan as int, num_cols as int, c2 as int)
                            == mark_cols(gr, row_idx + r, col as int, colspan as int, num_cols as int, 0),
                    decreases colspan - c2,
                {
                    if c2 < num_cols - col {
                        grid_mark(occupied, row_idx + r, col + c2);
                    }
                    c2 += 1;
                }
            }
            r += 1;
        }
        cell_idx += 1;
        col = if colspan > 1 {
            if colspan < num_cols - col {
                col + colspan
            } else {
                num_cols
            }
        } else {
            col + 1
        };
    }
    slots
}

/// The lines of the text being read and the current line.
pub struct LineCursor {
    pub lines: Vec<Vec<char>>,
    pub pos: usize,
}

impl LineCursor {
    pub open spec fn wf(&self) -> bool {
        self.pos <= self.lines.len()
    }

    /// `self` is `prev` moved forward over the same lines.
    pub open spec fn moved_from(&self, prev: &LineCursor) -> bool {
        &&& self.lines@ == prev.lines@
        &&& prev.pos <= self.pos <= self.lines.len()
    }

    pub fn new(input: &Vec<char>) -> (c: LineCursor)
        ensures
            c.wf(),
            c.pos == 0,
            crate::text::views(c.lines@) == crate::text::lines_spec(input@),
    {
        LineCursor { lines: lines(input), pos: 0 }
    }

    pub fn at_end(&self) -> (b: bool)
        ensures
            b == (self.pos >= self.lines.len()),
    {
        self.pos >= self.lines.len()
    }

    pub fn line(&self) -> (l: Vec<char>)
        requires
            self.pos < self.lines.len(),
        ensures
            l@ == self.lines@[self.pos as int]@,
    {
        copy(&self.lines[self.pos])
    }

    pub fn trimmed(&self) -> (l: Vec<char>)
        requires
            self.pos < self.lines.len(),
        ensures
            l@ == trim_spec(self.lines@[self.pos as int]@),
    {
        trim(&self.lines[self.pos])
    }
}

/// Where the first `delim` from `p` stands, unless a blank line (two
/// newlines) or the end comes first.
pub open spec fn char_before_blank(s: Seq<char>, p: int, delim: char) -> Option<int>
    decreases s.len() - p,
{
    if p < 0 || p >= s.len() {
        None
    } else if s[p] == delim {
        Some(p)
    } else if s[p] == '\n' && p + 1 < s.len() && s[p + 1] == '\n' {
        None
    } else {
        char_before_blank(s, p + 1, delim)
    }
}

/// The text from `start` to the next `delim` and the index after it; `None`
/// when a blank line (two newlines) or the end comes first.
pub(crate) fn until_char(chars: &Vec<char>, start: usize, delim: char) -> (r: Option<(Vec<char>, usize)>)
    ensures
        match r {
            Some((c, end)) => start + c@.len() <= chars.len() && start < end <= chars.len()
                && char_before_blank(chars@, start as int, delim) == Some(end - 1)
                && c@ == chars@.subrange(start as int, end - 1),
            None => char_before_blank(chars@, start as int, delim) is None,
        },
{
    let mut p = start;
    let mut content: Vec<char> = Vec::new();
    while p < chars.len()
        invariant
            start <= p,
            content@.len() == p - start,
            p <= chars.len() ==> content@ == chars@.subrange(start as int, p as int),
            char_before_blank(chars@, start as int, delim) == char_before_blank(chars@, p as int, delim),
        decreases chars.len() - p,
    {
        let c = chars[p];
        if c == delim {
            return Some((content, p + 1));
        }
        if c == '\n' && p + 1 < chars.len() && chars[p + 1] == '\n' {
            return None;
        }
        content.push(c);
        p += 1;
        assert(content@ =~= chars@.subrange(start as int, p as int));
    }
    None
}

/// Where the `]` that closes a bracket stands, scanning from `p` at nesting
/// `depth`.
pub open spec fn bracket_close(s: Seq<char>, p: int, depth: int) -> Option<int>
    decreases s.len() - p,
{
    if p < 0 || p >= s.len() {
        None
    } else if s[p] == '[' {
        bracket_close(s, p + 1, if depth < usize::MAX { depth + 1 } else { depth })
    } else if s[p] == ']' {
        if depth - 1 == 0 {
            Some(p)
        } else {
            bracket_close(s, p + 1, depth - 1)
        }
    } else {
        bracket_close(s, p + 1, depth)
    }
}

/// The content of `[ … ]` after the opening bracket at `start - 1`, with
/// nested brackets kept; the index after the closing bracket.
pub(crate) fn bracket_content(chars: &Vec<char>, start: usize) -> (r: Option<(Vec<char>, usize)>)
    ensures
        match r {
            Some((c, end)) => start + c@.len() <= chars.len() && start < end <= chars.len()
                && bracket_close(chars@, start as int, 1) == Some(end - 1)
                && c@ == chars@.subrange(start as int, end - 1),
            None => bracket_close(chars@, start as int, 1) is None,
        },
{
    let mut p = start;
    let mut depth: usize = 1;
    let mut content: Vec<char> = Vec::new();
    while p < chars.len() && depth > 0
        invariant
            start <= p,
            start <= chars.len() ==> p <= chars.len(),
            start > chars.len() ==> p == start,
            p == start ==> depth == 1,
            content@.len() <= p - start,
            depth > 0 && p <= chars.len() ==> content@ == chars@.subrange(start as int, p as int),
            depth > 0 ==> bracket_close(chars@, start as int, 1) == bracket_close(chars@, p as int, depth as int),
            depth == 0 ==> p >= 1 && p - 1 >= start && bracket_close(chars@, start as int, 1) == Some(p - 1)
                && content@ == chars@.subrange(start as int, p - 1),
        decreases chars.len() - p,
    {
        let c = chars[p];
        if c == '[' {
            if depth < usize::MAX {
                depth += 1;
            }
            content.push('[');
        } else if c == ']' {
            depth -= 1;
            if depth > 0 {
                content.push(']');
            }
        } else {
            content.push(c);
        }
        p += 1;
        assert(depth > 0 ==> content@ =~= chars@.subrange(start as int, p as int));
        assert(depth == 0 ==> content@ =~= chars@.subrange(start as int, p - 1));
    }
    if depth != 0 {
        None
    } else {
        Some((content, p))
    }
}

/// Where `delim` first occurs at or after `p`.
pub open spec fn first_match_from(s: Seq<char>, p: int, delim: Seq<char>) -> Option<int>
    decreases s.len() - p,
{
    if p < 0 || p >= s.len() {
        None
    } else if occurs_at(s, delim, p) {
        Some(p)
    } else {
        first_match_from(s, p + 1, delim)
    }
}

/// `first_match_from` from `k` names the first occurrence at or after `k`.
pub proof fn lemma_first_match_from(s: Seq<char>, d: Seq<char>, k: int)
    requires
        d.len() > 0,
        0 <= k,
    ensures
        match first_match_from(s, k, d) {
            Some(i) => k <= i && occurs_at(s, d, i) && forall|j: int| k <= j < i ==> !occurs_at(s, d, j),
            None => forall|j: int| k <= j ==> !occurs_at(s, d, j),
        },
    decreases s.len() - k,
{
    if k < s.len() && !occurs_at(s, d, k) {
        lemma_first_match_from(s, d, k + 1);
    }
}

/// The text from `start` to the next occurrence of `delim` and the index
/// after it; `None` when `delim` does not occur.
pub(crate) fn until_str(chars: &Vec<char>, start: usize, delim: &Vec<char>) -> (r: Option<(Vec<char>, usize)>)
    requires
        delim@.len() > 0,
    ensures
        match r {
            Some((c, end)) => start + c@.len() <= chars.len() && start < end <= chars.len()
                && first_match_from(chars@, start as int, delim@) == Some(end - delim@.len())
                && c@ == chars@.subrange(start as int, end - delim@.len()),
            None => first_match_from(chars@, start as int, delim@) is None,
        },
{
    let mut p = start;
    let mut content: Vec<char> = Vec::new();
    while p < chars.len()
        invariant
            start <= p,
            content@.len() == p - start,
            delim@.len() > 0,
            p <= chars.len() ==> content@ == chars@.subrange(start as int, p as int),
            first_match_from(chars@, start as int, delim@) == first_match_from(chars@, p as int, delim@),
        decreases chars.len() - p,
    {
        if matches_at(chars, delim, p) {
            return Some((content, p + delim.len()));
        }
        content.push(chars[p]);
        p += 1;
        assert(content@ =~= chars@.subrange(start as int, p as int));
    }
    None
}

/// What bold (`bold`) or italic markup makes of the parsed content: italic
/// text alone inside bold, or bold text alone inside italic, becomes bold
/// italic; otherwise the content is wrapped.
pub open spec fn emphasis_of(parsed: Seq<Inline>, bold: bool, r: Inline) -> bool {
    if parsed.len() == 1 && bold && parsed[0] is Italic {
        r == Inline::BoldItalic(parsed[0]->Italic_0)
    } else if parsed.len() == 1 && !bold && parsed[0] is Bold {
        r == Inline::BoldItalic(parsed[0]->Bold_0)
    } else if bold {
        r matches Inline::Bold(v) && v@ == parsed
    } else {
        r matches Inline::Italic(v) && v@ == parsed
    }
}

/// `b` is a code block with `language` and `content`.
pub open spec fn is_code_block(b: Block, language: Option<Seq<char>>, content: Seq<char>) -> bool {
    match b {
        Block::CodeBlock { language: l, content: c } => c@ == content && match l {
            Some(x) => language == Some(x@),
            None => language is None,
        },
        _ => false,
    }
}

/// `b` is a raw block in `format` with `content`.
pub open spec fn is_raw_block(b: Block, format: Seq<char>, content: Seq<char>) -> bool {
    match b {
        Block::RawBlock { format: f, content: c } => c@ == content && match f {
            Some(x) => x@ == format,
            None => false,
        },
        _ => false,
    }
}

/// Lines without the empty lines at their end.
pub open spec fn without_trailing_empty(c: Seq<Seq<char>>) -> Seq<Seq<char>>
    decreases c.len(),
{
    if c.len() > 0 && c.last().len() == 0 {
        without_trailing_empty(c.drop_last())
    } else {
        c
    }
}

/// The number of characters of `s` equal to `c`.
pub open spec fn char_count(s: Seq<char>, c: char) -> nat
    decreases s.len(),
{
    if s.len() == 0 {
        0
    } else {
        char_count(s.drop_last(), c) + (if s.last() == c {
            1nat
        } else {
            0nat
        })
    }
}

/// `e` is an invalid-input error with detail `message`.
pub open spec fn error_is(e: ParseError, message: Seq<char>) -> bool {
    match e {
        ParseError::InvalidInput(d) => d@ == message,
    }
}

} // verus!
