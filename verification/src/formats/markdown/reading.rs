//! What Markdown inline markup reads as, without link definitions.
use vstd::prelude::*;

use crate::ast::{inline_model, inlines_model, Inline, InlineModel};
use crate::formats::markdown::emitter::{md_inline, md_inlines};
use crate::formats::markdown::parser::{delim_before_blank, image_in_text, last_close_paren, markdown_markup_char, md_bracket_close, paren_close, title_start, url_in_parens_of};
use crate::formats::model::merge_push;
use crate::text::is_ws_spec;
use crate::text::{has_prefix, index_of_char, occurs_at, repeat_spec, trim_end_char_spec, trim_end_spec, trim_spec};

verus! {

/// The end of the run of `c` from `p`.
pub open spec fn run_end(s: Seq<char>, p: int, c: char) -> int
    decreases s.len() - p,
{
    if 0 <= p < s.len() && s[p] == c {
        run_end(s, p + 1, c)
    } else {
        p
    }
}

/// Where a run of exactly `ticks` backticks closes a code span, scanning from
/// `p`; a shorter or longer run is skipped whole.
pub open spec fn code_close(s: Seq<char>, p: int, ticks: int) -> Option<int>
    decreases s.len() - p,
{
    if p < 0 || p >= s.len() {
        None
    } else if s[p] == '`' {
        let c = run_end(s, p, '`') - p;
        if c == ticks {
            Some(p)
        } else if c >= 1 && p + c <= s.len() {
            code_close(s, p + c, ticks)
        } else {
            None
        }
    } else {
        code_close(s, p + 1, ticks)
    }
}

/// The first index from `i` on where `lit` occurs in `s`.
pub open spec fn first_occ(s: Seq<char>, lit: Seq<char>, i: int) -> Option<int>
    decreases s.len() + 1 - i,
{
    if i < 0 || i + lit.len() > s.len() {
        None
    } else if occurs_at(s, lit, i) {
        Some(i)
    } else {
        first_occ(s, lit, i + 1)
    }
}

/// The last index below `i` where `)` stands.
pub open spec fn last_paren(s: Seq<char>, i: int) -> Option<int>
    decreases i,
{
    if i <= 0 || i > s.len() {
        None
    } else if s[i - 1] == ')' {
        Some(i - 1)
    } else {
        last_paren(s, i - 1)
    }
}

/// What `( … )` from `start` gives: the URL, the title after ` "` (closing
/// quotes dropped), and the index after the `)`.
pub open spec fn url_parts(s: Seq<char>, start: int) -> Option<(Seq<char>, Option<Seq<char>>, int)> {
    match paren_close(s, start, 1) {
        None => None,
        Some(close) => {
            let raw = trim_spec(s.subrange(start, close));
            match first_occ(raw, " \""@, 0) {
                Some(ts) => Some(
                    (raw.subrange(0, ts), Some(trim_end_char_spec(raw.subrange(ts + 2, raw.len() as int), '"')), close + 1),
                ),
                None => Some((raw, None, close + 1)),
            }
        },
    }
}

/// `![alt](url)` written as a link's text: the alt text and the URL.
pub open spec fn image_parts(text: Seq<char>) -> Option<(Seq<char>, Seq<char>)> {
    if !has_prefix(text, "!["@) {
        None
    } else {
        let rest = text.subrange(2, text.len() as int);
        match index_of_char(rest, ']') {
            None => None,
            Some(close) => {
                let after = rest.subrange(close + 1, rest.len() as int);
                if !(after.len() > 0 && after[0] == '(') {
                    None
                } else {
                    match last_paren(after, after.len() as int) {
                        Some(cp) => if cp >= 1 {
                            Some((rest.subrange(0, close), after.subrange(1, cp)))
                        } else {
                            None
                        },
                        None => None,
                    }
                }
            },
        }
    }
}

/// The emphasis of `k` markers around `inner`: 3 bold-italic, 2 bold, else
/// italic.
pub open spec fn emphasis_kind(k: int, inner: Seq<InlineModel>) -> InlineModel {
    if k == 3 {
        InlineModel::BoldItalic(inner)
    } else if k == 2 {
        InlineModel::Bold(inner)
    } else {
        InlineModel::Italic(inner)
    }
}

/// One character read as text.
pub open spec fn char_text(c: char) -> InlineModel {
    InlineModel::Text(seq![c])
}

/// Emphasis with marker `m` at `p`, trying `k` markers and fewer: the run at
/// `p` must be that long, and the content runs to the next `k` markers
/// before a blank line; with no match, the marker is text.
pub open spec fn emphasis_at(s: Seq<char>, p: int, m: char, k: int) -> (InlineModel, int)
    decreases s.len(), 0int, k,
{
    if k <= 0 {
        (char_text(m), p + 1)
    } else {
        let run = run_end(s, p, m) - p;
        let d = if run >= k && p + k <= s.len() { delim_before_blank(s, p + k, repeat_spec(m, k as nat)) } else { None };
        match d {
            Some(e) => if p + k <= e && e + k <= s.len() && p >= 0 {
                (emphasis_kind(k, md_model(s.subrange(p + k, e))), e + k)
            } else {
                emphasis_at(s, p, m, k - 1)
            },
            None => emphasis_at(s, p, m, k - 1),
        }
    }
}

/// Content delimited by `delim` from `from` on (before a blank line), read
/// and wrapped by `kind`: 0 strikethrough, 1 subscript, 2 superscript.
pub open spec fn delimited_model(s: Seq<char>, from: int, delim: Seq<char>, kind: int) -> Option<(InlineModel, int)>
    decreases s.len(), 0int, 0int,
{
    match delim_before_blank(s, from, delim) {
        Some(e) => if 1 <= from <= e && e + delim.len() <= s.len() {
            let inner = md_model(s.subrange(from, e));
            Some(
                (
                    if kind == 0 {
                        InlineModel::Strikethrough(inner)
                    } else if kind == 1 {
                        InlineModel::Subscript(inner)
                    } else {
                        InlineModel::Superscript(inner)
                    },
                    e + delim.len(),
                ),
            )
        } else {
            None
        },
        None => None,
    }
}

/// `~~strike~~` or `~sub~` at `p`, else `~` as text.
pub open spec fn tilde_at(s: Seq<char>, p: int) -> (InlineModel, int)
    decreases s.len(), 0int, 1int,
{
    let strike = if p + 1 < s.len() && s[p + 1] == '~' { delimited_model(s, p + 2, "~~"@, 0) } else { None };
    match strike {
        Some(r) => r,
        None => match delimited_model(s, p + 1, "~"@, 1) {
            Some(r) => r,
            None => (char_text('~'), p + 1),
        },
    }
}

/// An inline code span at `p`: the text between a run of backticks and the
/// next run as long, one space trimmed from each end where both are spaces;
/// an unclosed run gives one backtick as text.
pub open spec fn code_at(s: Seq<char>, p: int) -> (InlineModel, int) {
    let ticks = run_end(s, p, '`') - p;
    let cs = p + ticks;
    match code_close(s, cs, ticks) {
        None => (char_text('`'), p + 1),
        Some(q) => {
            let content = s.subrange(cs, q);
            let c2 = if content.len() > 1 && content[0] == ' ' && content.last() == ' ' {
                content.subrange(1, content.len() - 1)
            } else {
                content
            };
            (InlineModel::InlineCode(c2), q + ticks)
        },
    }
}

/// A link `[text](url "title")` at `p`, or `[![alt](img)](url)` as a linked
/// image; `[` is text where neither follows (no link definitions).
pub open spec fn link_at(s: Seq<char>, p: int) -> (InlineModel, int)
    decreases s.len(), 0int, 2int,
{
    match md_bracket_close(s, p + 1, 1) {
        None => (char_text('['), p + 1),
        Some(close) => if p + 1 <= close < s.len() && p >= 0 {
            let text = s.subrange(p + 1, close);
            let q0 = close + 1;
            let paren = q0 < s.len() && s[q0] == '(';
            let img = if has_prefix(text, "!["@) && paren { image_parts(text) } else { None };
            let u = if paren { url_parts(s, q0 + 1) } else { None };
            match (img, u) {
                (Some((alt, iurl)), Some((url, _, after))) => if alt.len() < text.len() {
                    (
                        InlineModel::Image { url: iurl, alt: md_model(alt), title: None, link: Some(url) },
                        after,
                    )
                } else {
                    (char_text('['), p + 1)
                },
                (_, Some((url, title, after))) => (InlineModel::Link { url, text: md_model(text), title }, after),
                _ => (char_text('['), p + 1),
            }
        } else {
            (char_text('['), p + 1)
        },
    }
}

/// An image `![alt](url "title")` at `p`; `!` is text otherwise (no link
/// definitions).
pub open spec fn image_at(s: Seq<char>, p: int) -> (InlineModel, int)
    decreases s.len(), 0int, 2int,
{
    if !(p + 1 < s.len() && s[p + 1] == '[') {
        (char_text('!'), p + 1)
    } else {
        match md_bracket_close(s, p + 2, 1) {
            None => (char_text('!'), p + 1),
            Some(close) => if p + 2 <= close < s.len() && p >= 0 {
                let q0 = close + 1;
                let u = if q0 < s.len() && s[q0] == '(' { url_parts(s, q0 + 1) } else { None };
                match u {
                    Some((url, title, after)) => (
                        InlineModel::Image { url, alt: md_model(s.subrange(p + 2, close)), title, link: None },
                        after,
                    ),
                    None => (char_text('!'), p + 1),
                }
            } else {
                (char_text('!'), p + 1)
            },
        }
    }
}

/// The end of the run of characters from `p` that start no markup.
pub open spec fn text_end(s: Seq<char>, p: int) -> int
    decreases s.len() - p,
{
    if 0 <= p < s.len() && !markdown_markup_char(s[p]) {
        text_end(s, p + 1)
    } else {
        p
    }
}

/// The inline read at `p` and the index after it.
pub open spec fn md_step(s: Seq<char>, p: int) -> (InlineModel, int)
    decreases s.len(), 0int, 4int,
{
    let c = s[p];
    if c == '\\' {
        if p + 1 < s.len() { (char_text(s[p + 1]), p + 2) } else { (char_text('\\'), p + 1) }
    } else if c == '`' {
        code_at(s, p)
    } else if c == '*' || c == '_' {
        emphasis_at(s, p, c, 3)
    } else if c == '~' {
        tilde_at(s, p)
    } else if c == '^' {
        match delimited_model(s, p + 1, "^"@, 2) {
            Some(r) => r,
            None => (char_text('^'), p + 1),
        }
    } else if c == '[' {
        link_at(s, p)
    } else if c == '!' {
        image_at(s, p)
    } else if c == '<' {
        (char_text('<'), p + 1)
    } else if c == '\n' {
        (
            if p >= 2 && s[p - 1] == ' ' && s[p - 2] == ' ' {
                InlineModel::HardLineBreak
            } else {
                InlineModel::SoftLineBreak
            },
            p + 1,
        )
    } else {
        let e = text_end(s, p);
        if e == p { (char_text(c), p + 1) } else { (InlineModel::Text(s.subrange(p, e)), e) }
    }
}

/// The reading from `p` on, after the values `res` read so far; adjacent
/// texts are merged.
pub open spec fn md_scan(s: Seq<char>, p: int, res: Seq<InlineModel>) -> Seq<InlineModel>
    decreases s.len(), 1int, s.len() - p,
{
    if p < 0 || p >= s.len() {
        res
    } else {
        let st = md_step(s, p);
        if p < st.1 <= s.len() {
            md_scan(s, st.1, merge_push(res, st.0))
        } else {
            res
        }
    }
}

/// Whether a value is a line break.
pub open spec fn break_model(x: InlineModel) -> bool {
    x is SoftLineBreak || x is HardLineBreak
}

/// The values with the trailing whitespace of each text that a line break
/// follows removed.
pub open spec fn strip_before_breaks(m: Seq<InlineModel>) -> Seq<InlineModel> {
    Seq::new(
        m.len(),
        |j: int|
            if j + 1 < m.len() && break_model(m[j + 1]) && m[j] is Text {
                InlineModel::Text(trim_end_spec(m[j]->Text_0))
            } else {
                m[j]
            },
    )
}

/// What Markdown inline markup `s` reads as without link definitions.
pub open spec fn md_model(s: Seq<char>) -> Seq<InlineModel>
    decreases s.len(), 2int, 0int,
{
    strip_before_breaks(md_scan(s, 0, seq![]))
}


/// A run of `c` from `p` to `e` that ends there is what `run_end` finds.
pub proof fn lemma_run_end(s: Seq<char>, p: int, c: char, e: int)
    requires
        0 <= p <= e <= s.len(),
        forall|j: int| p <= j < e ==> s[j] == c,
        e == s.len() || s[e] != c,
    ensures
        run_end(s, p, c) == e,
    decreases e - p,
{
    if p < e {
        lemma_run_end(s, p + 1, c, e);
    }
}

/// The URL, title and end that reading `( … )` gives are those of
/// `url_parts`.
pub proof fn lemma_url_parts(s: Seq<char>, start: int, r: Option<(Seq<char>, Option<Seq<char>>)>, after: int)
    requires
        url_in_parens_of(s, start, r, after),
    ensures
        match r {
            Some((u, t)) => url_parts(s, start) == Some((u, t, after)),
            None => url_parts(s, start) is None,
        },
{
    if let Some(close) = paren_close(s, start, 1) {
        let raw = trim_spec(s.subrange(start, close));
        lemma_first_occ(raw, " \""@, 0);
        match r {
            Some((u, Some(title))) => {
                let ts = choose|ts: int| #[trigger] title_start(raw, ts) && u == raw.subrange(0, ts) && title
                    == trim_end_char_spec(raw.subrange(ts + 2, raw.len() as int), '"');
                match first_occ(raw, " \""@, 0) {
                    Some(k) => {
                        if k < ts {
                            assert(!occurs_at(raw, " \""@, k));
                        } else if k > ts {
                        }
                        assert(k == ts);
                    },
                    None => {
                        assert(!occurs_at(raw, " \""@, ts));
                    },
                }
            },
            Some((u, None)) => {
                match first_occ(raw, " \""@, 0) {
                    Some(k) => {
                        assert(title_start(raw, k));
                    },
                    None => {},
                }
            },
            None => {},
        }
    }
}

/// `)` occurs at `j` exactly where it stands.
proof fn lemma_paren_at(s: Seq<char>, j: int)
    ensures
        occurs_at(s, ")"@, j) == (0 <= j < s.len() && s[j] == ')'),
{
    reveal_strlit(")");
    if 0 <= j < s.len() {
        if s[j] == ')' {
            assert(s.subrange(j, j + 1) =~= ")"@);
        } else {
            assert(s.subrange(j, j + 1)[0] == s[j]);
        }
    }
}

/// What reading `![alt](url)` from a link's text gives is `image_parts`.
pub proof fn lemma_image_parts(text: Seq<char>, r: Option<(Seq<char>, Seq<char>)>)
    requires
        image_in_text(text, r),
    ensures
        r == image_parts(text),
{
    if has_prefix(text, "!["@) {
        let rest = text.subrange(2, text.len() as int);
        if let Some(close) = index_of_char(rest, ']') {
            let after = rest.subrange(close + 1, rest.len() as int);
            if after.len() > 0 && after[0] == '(' {
                lemma_last_paren(after, after.len() as int);
                match r {
                    Some((alt, url)) => {
                        let cp = choose|cp: int| #[trigger] last_close_paren(after, cp) && cp >= 1 && url == after.subrange(1, cp);
                        lemma_paren_at(after, cp);
                        match last_paren(after, after.len() as int) {
                            Some(k) => {
                                lemma_paren_at(after, k);
                                if k > cp {
                                    assert(!occurs_at(after, ")"@, k));
                                } else if k < cp {
                                }
                                assert(k == cp);
                            },
                            None => {},
                        }
                    },
                    None => {
                        match last_paren(after, after.len() as int) {
                            Some(k) => {
                                lemma_paren_at(after, k);
                                assert forall|j: int| k < j implies !occurs_at(after, ")"@, j) by {
                                    lemma_paren_at(after, j);
                                }
                                assert(last_close_paren(after, k));
                            },
                            None => {},
                        }
                    },
                }
            }
        }
    }
}

/// Where `delim_before_blank` finds the delimiter, it occurs there, at or
/// after `p`.
pub proof fn lemma_delim_found(s: Seq<char>, p: int, d: Seq<char>)
    ensures
        delim_before_blank(s, p, d) matches Some(q) ==> p <= q && occurs_at(s, d, q),
    decreases s.len() - p,
{
    if 0 <= p < s.len() && !occurs_at(s, d, p) && !(s[p] == '\n' && p + 1 < s.len() && s[p + 1] == '\n') {
        lemma_delim_found(s, p + 1, d);
    }
}

/// Where a bracket closes, it closes inside the text, at or after `p`.
pub proof fn lemma_bracket_close_range(s: Seq<char>, p: int, depth: int)
    ensures
        md_bracket_close(s, p, depth) matches Some(e) ==> p <= e < s.len(),
    decreases s.len() - p,
{
    if 0 <= p < s.len() {
        if s[p] == '[' {
            lemma_bracket_close_range(s, p + 1, depth + 1);
        } else if s[p] == ']' {
            if depth - 1 != 0 {
                lemma_bracket_close_range(s, p + 1, depth - 1);
            }
        } else if s[p] == '\\' {
            if p + 1 < s.len() {
                lemma_bracket_close_range(s, p + 2, depth);
            }
        } else {
            lemma_bracket_close_range(s, p + 1, depth);
        }
    }
}


/// A word: ASCII letters and digits, at least one.
pub open spec fn word(w: Seq<char>) -> bool {
    w.len() > 0 && forall|i: int| 0 <= i < w.len() ==> ('a' <= #[trigger] w[i] <= 'z' || 'A' <= w[i] <= 'Z' || '0'
        <= w[i] <= '9')
}

/// The characters of `s` from `a` below `b` are those of the word `w`.
pub open spec fn word_at(s: Seq<char>, w: Seq<char>, a: int) -> bool {
    word(w) && 0 <= a && a + w.len() <= s.len() && s.subrange(a, a + w.len()) == w
}

proof fn lemma_word_char(s: Seq<char>, w: Seq<char>, a: int, j: int)
    requires
        word_at(s, w, a),
        a <= j < a + w.len(),
    ensures
        !markdown_markup_char(s[j]),
        s[j] != ' ' && s[j] != '"' && s[j] != '(' && s[j] != ')' && s[j] != '[' && s[j] != ']',
        !is_ws_spec(s[j]),
        s[j] != '\n',
{
    assert(s[j] == s.subrange(a, a + w.len())[j - a]);
    assert(w[j - a] == s[j]);
}

/// A word reads as one text.
pub proof fn lemma_word_model(w: Seq<char>)
    requires
        word(w),
    ensures
        md_model(w) == seq![InlineModel::Text(w)],
{
    assert(word_at(w, w, 0)) by {
        assert(w.subrange(0, w.len() as int) =~= w);
    }
    lemma_text_end_word(w, w, 0, 0);
    assert(w.subrange(0, w.len() as int) =~= w);
    let st = md_step(w, 0);
    lemma_word_char(w, w, 0, 0);
    assert(st == (InlineModel::Text(w), w.len() as int));
    assert(merge_push(seq![], InlineModel::Text(w)) =~= seq![InlineModel::Text(w)]);
    assert(md_scan(w, 0, seq![]) == md_scan(w, w.len() as int, seq![InlineModel::Text(w)]));
    assert(strip_before_breaks(seq![InlineModel::Text(w)]) =~= seq![InlineModel::Text(w)]);
}

/// The text run over a word ends where the word ends, if what follows
/// starts markup or ends the text.
proof fn lemma_text_end_word(s: Seq<char>, w: Seq<char>, a: int, j: int)
    requires
        word_at(s, w, a),
        a <= j <= a + w.len(),
        a + w.len() == s.len() || markdown_markup_char(s[a + w.len()]),
    ensures
        text_end(s, j) == a + w.len(),
    decreases a + w.len() - j,
{
    if j < a + w.len() {
        lemma_word_char(s, w, a, j);
        lemma_text_end_word(s, w, a, j + 1);
    }
}

/// No delimiter starting with `m` (a markup character) occurs inside a word,
/// and no blank line either: the first one after the word is found.
proof fn lemma_delim_after_word(s: Seq<char>, w: Seq<char>, a: int, d: Seq<char>, j: int)
    requires
        word_at(s, w, a),
        a <= j <= a + w.len(),
        d.len() > 0,
        markdown_markup_char(d[0]),
        occurs_at(s, d, a + w.len()),
    ensures
        delim_before_blank(s, j, d) == Some(a + w.len()),
    decreases a + w.len() - j,
{
    if j < a + w.len() {
        lemma_word_char(s, w, a, j);
        assert(!occurs_at(s, d, j)) by {
            if occurs_at(s, d, j) {
                assert(s.subrange(j, j + d.len())[0] == s[j]);
            }
        }
        lemma_delim_after_word(s, w, a, d, j + 1);
    }
}


/// Text read in one step to its end reads as that one value.
proof fn lemma_one_step(s: Seq<char>, x: InlineModel)
    requires
        s.len() > 0,
        md_step(s, 0) == (x, s.len() as int),
        !break_model(x),
    ensures
        md_model(s) == seq![x],
{
    assert(merge_push(seq![], x) =~= seq![x]);
    assert(md_scan(s, 0, seq![]) == md_scan(s, s.len() as int, seq![x]));
    assert(strip_before_breaks(seq![x]) =~= seq![x]);
}

/// The word between `k` markers `m` on each side, where `k` is the run's
/// length, reads as emphasis of `k` markers; shorter tries fail first.
proof fn lemma_emphasis_word(w: Seq<char>, m: char, k: int)
    requires
        word(w),
        1 <= k <= 3,
        m == '*' || m == '_',
    ensures
        ({
            let s = repeat_spec(m, k as nat) + w + repeat_spec(m, k as nat);
            md_model(s) == seq![emphasis_kind(k, seq![InlineModel::Text(w)])]
        }),
{
    let d = repeat_spec(m, k as nat);
    let s = d + w + d;
    let n = w.len() as int;
    assert(word_at(s, w, k)) by {
        assert(s.subrange(k, k + n) =~= w);
    }
    lemma_word_char(s, w, k, k);
    assert forall|j: int| 0 <= j < k implies s[j] == m by {
        assert(s[j] == d[j]);
    }
    lemma_run_end(s, 0, m, k);
    assert(occurs_at(s, d, k + n)) by {
        assert(s.subrange(k + n, k + n + k) =~= d);
    }
    lemma_delim_after_word(s, w, k, d, k);
    lemma_word_model(w);
    assert(s.subrange(k, k + n) =~= w);
    if k < 3 {
        assert(emphasis_at(s, 0, m, 3) == emphasis_at(s, 0, m, 2));
    }
    if k < 2 {
        assert(emphasis_at(s, 0, m, 2) == emphasis_at(s, 0, m, 1));
    }
    assert(emphasis_at(s, 0, m, k) == (emphasis_kind(k, seq![InlineModel::Text(w)]), 2 * k + n));
    assert(md_step(s, 0) == emphasis_at(s, 0, m, 3));
    lemma_one_step(s, emphasis_kind(k, seq![InlineModel::Text(w)]));
}

/// The word between `o` and `o` (`~~`, `~` or `^`) reads as strikethrough,
/// subscript or superscript.
proof fn lemma_delimited_word(w: Seq<char>, o: Seq<char>)
    requires
        word(w),
        o == "~~"@ || o == "~"@ || o == "^"@,
    ensures
        md_model(o + w + o) == seq![
            if o == "~~"@ {
                InlineModel::Strikethrough(seq![InlineModel::Text(w)])
            } else if o == "~"@ {
                InlineModel::Subscript(seq![InlineModel::Text(w)])
            } else {
                InlineModel::Superscript(seq![InlineModel::Text(w)])
            },
        ],
{
    reveal_strlit("~~");
    reveal_strlit("~");
    reveal_strlit("^");
    let s = o + w + o;
    let k = o.len() as int;
    let n = w.len() as int;
    assert(word_at(s, w, k)) by {
        assert(s.subrange(k, k + n) =~= w);
    }
    lemma_word_char(s, w, k, k);
    assert(occurs_at(s, o, k + n)) by {
        assert(s.subrange(k + n, k + n + k) =~= o);
    }
    lemma_delim_after_word(s, w, k, o, k);
    lemma_word_model(w);
    assert(s.subrange(k, k + n) =~= w);
    assert(s[0] == o[0]);
    if o == "~~"@ {
        assert(s[1] == '~');
    } else if o == "~"@ {
        assert(s[1] != '~');
    }
    lemma_one_step(
        s,
        if o == "~~"@ {
            InlineModel::Strikethrough(seq![InlineModel::Text(w)])
        } else if o == "~"@ {
            InlineModel::Subscript(seq![InlineModel::Text(w)])
        } else {
            InlineModel::Superscript(seq![InlineModel::Text(w)])
        },
    );
}


/// No backtick stands inside a word: the code span that opens before it
/// closes at the backtick after it.
proof fn lemma_code_close_word(s: Seq<char>, w: Seq<char>, a: int, j: int)
    requires
        word_at(s, w, a),
        a <= j <= a + w.len(),
        a + w.len() + 1 == s.len(),
        s[a + w.len()] == '`',
    ensures
        code_close(s, j, 1) == Some(a + w.len()),
    decreases a + w.len() - j,
{
    if j < a + w.len() {
        lemma_word_char(s, w, a, j);
        lemma_code_close_word(s, w, a, j + 1);
    } else {
        lemma_run_end(s, j, '`', j + 1);
    }
}

/// No bracket or backslash stands inside a word: the bracket open before it
/// closes at the `]` after it.
proof fn lemma_bracket_word(s: Seq<char>, w: Seq<char>, a: int, j: int)
    requires
        word_at(s, w, a),
        a <= j <= a + w.len(),
        a + w.len() < s.len(),
        s[a + w.len()] == ']',
    ensures
        md_bracket_close(s, j, 1) == Some(a + w.len()),
    decreases a + w.len() - j,
{
    if j < a + w.len() {
        lemma_word_char(s, w, a, j);
        lemma_bracket_word(s, w, a, j + 1);
    }
}

/// No parenthesis stands inside a word: the parenthesis open before it
/// closes at the `)` after it.
proof fn lemma_paren_word(s: Seq<char>, w: Seq<char>, a: int, j: int)
    requires
        word_at(s, w, a),
        a <= j <= a + w.len(),
        a + w.len() < s.len(),
        s[a + w.len()] == ')',
    ensures
        paren_close(s, j, 1) == Some(a + w.len()),
    decreases a + w.len() - j,
{
    if j < a + w.len() {
        lemma_word_char(s, w, a, j);
        lemma_paren_word(s, w, a, j + 1);
    }
}

/// A word between backticks reads as code.
proof fn lemma_code_word(w: Seq<char>)
    requires
        word(w),
    ensures
        md_model("`"@ + w + "`"@) == seq![InlineModel::InlineCode(w)],
{
    reveal_strlit("`");
    let s = "`"@ + w + "`"@;
    let n = w.len() as int;
    assert(word_at(s, w, 1)) by {
        assert(s.subrange(1, 1 + n) =~= w);
    }
    lemma_word_char(s, w, 1, 1);
    lemma_run_end(s, 0, '`', 1);
    lemma_code_close_word(s, w, 1, 1);
    assert(s.subrange(1, 1 + n) =~= w);
    lemma_word_char(s, w, 1, 1);
    assert(w[0] == s[1]);
    assert(code_at(s, 0) == (InlineModel::InlineCode(w), n + 2));
    lemma_one_step(s, InlineModel::InlineCode(w));
}

/// A word has no whitespace at either end and no ` "`.
proof fn lemma_word_raw(u: Seq<char>)
    requires
        word(u),
    ensures
        trim_spec(u) == u,
        first_occ(u, " \""@, 0) is None,
{
    reveal_strlit(" \"");
    assert(word_at(u, u, 0)) by {
        assert(u.subrange(0, u.len() as int) =~= u);
    }
    lemma_word_char(u, u, 0, 0);
    lemma_word_char(u, u, 0, u.len() - 1);
    assert(crate::text::trim_start_spec(u) == u);
    assert(u.last() == u[u.len() - 1]);
    assert(trim_end_spec(u) == u);
    lemma_first_occ(u, " \""@, 0);
    if let Some(k) = first_occ(u, " \""@, 0) {
        assert(u.subrange(k, k + 2)[0] == u[k]);
        lemma_word_char(u, u, 0, k);
    }
}

/// A link written with a word as its text and a word as its URL reads back.
proof fn lemma_link_word(w: Seq<char>, u: Seq<char>)
    requires
        word(w),
        word(u),
    ensures
        md_model("["@ + w + "]("@ + u + ")"@) == seq![
            InlineModel::Link { url: u, text: seq![InlineModel::Text(w)], title: None },
        ],
{
    reveal_strlit("[");
    reveal_strlit("](");
    reveal_strlit(")");
    reveal_strlit("![");
    let s = "["@ + w + "]("@ + u + ")"@;
    let n = w.len() as int;
    let m = u.len() as int;
    assert(s.len() == n + m + 4);
    assert(word_at(s, w, 1)) by {
        assert(s.subrange(1, 1 + n) =~= w);
    }
    assert(word_at(s, u, n + 3)) by {
        assert(s.subrange(n + 3, n + 3 + m) =~= u);
    }
    assert(s[1 + n] == ']' && s[2 + n] == '(' && s[n + 3 + m] == ')');
    lemma_bracket_word(s, w, 1, 1);
    lemma_paren_word(s, u, n + 3, n + 3);
    assert(s.subrange(1, 1 + n) =~= w);
    assert(s.subrange(n + 3, n + 3 + m) =~= u);
    lemma_word_raw(u);
    lemma_word_model(w);
    lemma_word_char(s, w, 1, 1);
    assert(!has_prefix(w, "!["@)) by {
        assert(w[0] == s[1]);
        if has_prefix(w, "!["@) {
            assert(w.subrange(0, 2)[0] == w[0]);
        }
    }
    assert(url_parts(s, n + 3) == Some((u, None::<Seq<char>>, n + m + 4)));
    assert(link_at(s, 0) == (InlineModel::Link { url: u, text: seq![InlineModel::Text(w)], title: None }, n + m + 4));
    lemma_one_step(s, InlineModel::Link { url: u, text: seq![InlineModel::Text(w)], title: None });
}


/// The content is one text that is a word.
pub open spec fn one_word(c: Seq<Inline>) -> bool {
    c.len() == 1 && match c[0] {
        Inline::Text(t) => word(t@),
        _ => false,
    }
}

/// An inline of one markup kind around a word: emphasis, strikethrough,
/// super- or subscript of one word, code that is a word, or a link without
/// title whose text and URL are words.
pub open spec fn word_inline(x: Inline) -> bool {
    match x {
        Inline::Bold(c) => one_word(c@),
        Inline::Italic(c) => one_word(c@),
        Inline::BoldItalic(c) => one_word(c@),
        Inline::Strikethrough(c) => one_word(c@),
        Inline::Superscript(c) => one_word(c@),
        Inline::Subscript(c) => one_word(c@),
        Inline::InlineCode(t) => word(t@),
        Inline::Link { url, text, title } => word(url@) && one_word(text@) && title is None,
        _ => false,
    }
}

proof fn lemma_one_word(c: Seq<Inline>)
    requires
        one_word(c),
    ensures
        md_inlines(c) == c[0]->Text_0@,
        inlines_model(c) == seq![InlineModel::Text(c[0]->Text_0@)],
{
    assert(c.drop_last() =~= Seq::<Inline>::empty());
    assert(c.last() == c[0]);
    assert(md_inline(c[0]) == c[0]->Text_0@);
    assert(inline_model(c[0]) == InlineModel::Text(c[0]->Text_0@));
    assert(md_inlines(Seq::<Inline>::empty()) =~= seq![]);
    assert(md_inlines(c) =~= c[0]->Text_0@);
    assert(inlines_model(Seq::<Inline>::empty()) =~= seq![]);
    assert(inlines_model(c) =~= seq![InlineModel::Text(c[0]->Text_0@)]);
}

/// What the Markdown writer writes for an inline of one markup kind around a
/// word reads back as that inline.
pub proof fn law_written_inline_reads_back(x: Inline)
    requires
        word_inline(x),
    ensures
        md_model(md_inline(x)) == seq![inline_model(x)],
{
    reveal_strlit("**");
    reveal_strlit("*");
    reveal_strlit("***");
    reveal_strlit("~~");
    reveal_strlit("~");
    reveal_strlit("^");
    reveal_strlit("`");
    match x {
        Inline::Bold(c) => {
            lemma_one_word(c@);
            assert("**"@ =~= repeat_spec('*', 2));
            lemma_emphasis_word(c@[0]->Text_0@, '*', 2);
        },
        Inline::Italic(c) => {
            lemma_one_word(c@);
            assert("*"@ =~= repeat_spec('*', 1));
            lemma_emphasis_word(c@[0]->Text_0@, '*', 1);
        },
        Inline::BoldItalic(c) => {
            lemma_one_word(c@);
            assert("***"@ =~= repeat_spec('*', 3));
            lemma_emphasis_word(c@[0]->Text_0@, '*', 3);
        },
        Inline::Strikethrough(c) => {
            lemma_one_word(c@);
            lemma_delimited_word(c@[0]->Text_0@, "~~"@);
        },
        Inline::Superscript(c) => {
            lemma_one_word(c@);
            lemma_delimited_word(c@[0]->Text_0@, "^"@);
        },
        Inline::Subscript(c) => {
            lemma_one_word(c@);
            lemma_delimited_word(c@[0]->Text_0@, "~"@);
        },
        Inline::InlineCode(t) => {
            assert(!t@.contains('`')) by {
                assert(word_at(t@, t@, 0)) by {
                    assert(t@.subrange(0, t@.len() as int) =~= t@);
                }
                if t@.contains('`') {
                    let j = choose|j: int| 0 <= j < t@.len() && t@[j] == '`';
                    lemma_word_char(t@, t@, 0, j);
                }
            }
            lemma_code_word(t@);
        },
        Inline::Link { url, text, title } => {
            lemma_one_word(text@);
            assert(crate::formats::markdown::emitter::md_title(title) =~= seq![]);
            lemma_link_word(text@[0]->Text_0@, url@);
            assert(md_inline(x) =~= "["@ + text@[0]->Text_0@ + "]("@ + url@ + ")"@);
        },
        _ => {},
    }
}

/// `first_occ` names the first occurrence.
pub proof fn lemma_first_occ(s: Seq<char>, lit: Seq<char>, i: int)
    requires
        0 <= i,
    ensures
        match first_occ(s, lit, i) {
            Some(k) => i <= k && occurs_at(s, lit, k) && forall|j: int| i <= j < k ==> !occurs_at(s, lit, j),
            None => forall|j: int| i <= j ==> !occurs_at(s, lit, j),
        },
    decreases s.len() + 1 - i,
{
    if i + lit.len() <= s.len() && !occurs_at(s, lit, i) {
        lemma_first_occ(s, lit, i + 1);
    }
}

/// `last_paren` names the last `)` below `i`.
pub proof fn lemma_last_paren(s: Seq<char>, i: int)
    requires
        0 <= i <= s.len(),
    ensures
        match last_paren(s, i) {
            Some(k) => 0 <= k < i && s[k] == ')' && forall|j: int| k < j < i ==> s[j] != ')',
            None => forall|j: int| 0 <= j < i ==> s[j] != ')',
        },
    decreases i,
{
    if i > 0 && s[i - 1] != ')' {
        lemma_last_paren(s, i - 1);
    }
}

} // verus!
