//! Escaped text read back by the LaTeX inline reader.
use vstd::prelude::*;

use crate::ast::InlineModel;
use crate::formats::latex::emitter::{escape_char_spec, escape_spec};
use crate::formats::latex::parser::{
    backslashes_before, command_at, delimited_at, delimited_close, escaped_char_of, latex_inline_model,
    latex_scan, latex_step, lemma_scan_step, name_char, name_end, ws_end,
};
use crate::text::is_ws_spec;

verus! {

/// Escaping a concatenation escapes each part.
proof fn lemma_escape_concat(a: Seq<char>, b: Seq<char>)
    ensures
        escape_spec(a + b, false) == escape_spec(a, false) + escape_spec(b, false),
    decreases b.len(),
{
    if b.len() == 0 {
        assert(a + b =~= a);
        assert(escape_spec(b, false) =~= seq![]);
    } else {
        lemma_escape_concat(a, b.drop_last());
        assert((a + b).drop_last() =~= a + b.drop_last());
        assert((a + b).last() == b.last());
    }
}

/// A run of ASCII lowercase letters from `i` to `k`, then a character that is
/// no name character: the command name runs to `k`.
proof fn lemma_name_run(s: Seq<char>, i: int, k: int)
    requires
        0 <= i <= k < s.len(),
        forall|j: int| i <= j < k ==> 'a' <= #[trigger] s[j] && s[j] <= 'z',
        !name_char(s[k]),
    ensures
        name_end(s, i) == k,
    decreases k - i,
{
    if i < k {
        assert('a' <= s[i] && s[i] <= 'z');
        assert((s[i] as u32) < 128);
        lemma_name_run(s, i + 1, k);
    }
}

/// One escaped character read at `pre.len()`: the reading moves past its
/// escape and adds the character to the pending text.
proof fn lemma_escape_step(pre: Seq<char>, c: char, post: Seq<char>, t: Seq<char>)
    ensures
        ({
            let u = escape_char_spec(c, false);
            latex_step(pre + u + post, pre.len() as int, seq![], t) == ((pre.len() + u.len()) as int, Seq::<InlineModel>::empty(), t.push(c))
        }),
{
    let u = escape_char_spec(c, false);
    let e = pre + u + post;
    let p = pre.len() as int;
    reveal_strlit("\\textbackslash{}");
    reveal_strlit("\\{");
    reveal_strlit("\\}");
    reveal_strlit("\\#");
    reveal_strlit("\\$");
    reveal_strlit("\\%");
    reveal_strlit("\\&");
    reveal_strlit("\\_");
    reveal_strlit("\\textasciicircum{}");
    reveal_strlit("\\textasciitilde{}");
    assert forall|j: int| 0 <= j < u.len() implies e[p + j] == #[trigger] u[j] by {
        assert(e[p + j] == (pre + u)[p + j]);
    }
    if c == '\\' || c == '^' || c == '~' {
        let name = if c == '\\' {
            "textbackslash"@
        } else if c == '^' {
            "textasciicircum"@
        } else {
            "textasciitilde"@
        };
        reveal_strlit("textbackslash");
        reveal_strlit("textasciicircum");
        reveal_strlit("textasciitilde");
        assert(u =~= seq!['\\'] + name + seq!['{', '}']);
        let k = p + 1 + name.len();
        assert(e[k] == '{');
        assert(e[k + 1] == '}');
        assert(('{' as u32) == 123u32);
        lemma_name_run(e, p + 1, k);
        assert(name_char(e[p + 1]));
        assert(e.subrange(p + 1, k) =~= name);
        assert(command_at(e, p) == Some((name, k)));
        assert(!is_ws_spec('{'));
        assert(ws_end(e, k) == k);
        assert(backslashes_before(e, k) == 0);
        assert(backslashes_before(e, k + 1) == 0);
        assert(delimited_close(e, k + 1, 1, '{', '}') == Some(k + 1));
        assert(delimited_close(e, k, 0, '{', '}') == Some(k + 1));
        assert(delimited_at(e, k, '{', '}') == Some((e.subrange(k + 1, k + 1), k + 2)));
        assert(escaped_char_of(name) is None);
    } else if c == '{' || c == '}' || c == '#' || c == '$' || c == '%' || c == '&' || c == '_' {
        assert(u =~= seq!['\\', c]);
        assert(e[p + 1] == c);
        assert((c as u32) < 128);
        assert(!name_char(c));
        assert(command_at(e, p) == Some((seq![c], p + 2)));
        assert(escaped_char_of(seq![c]) == Some(c));
    } else {
        assert(u =~= seq![c]);
        assert(e[p] == c);
    }
}

/// Every character is escaped as at least one character.
proof fn lemma_escape_char_nonempty(c: char)
    ensures
        escape_char_spec(c, false).len() >= 1,
{
    reveal_strlit("\\textbackslash{}");
    reveal_strlit("\\{");
    reveal_strlit("\\}");
    reveal_strlit("\\#");
    reveal_strlit("\\$");
    reveal_strlit("\\%");
    reveal_strlit("\\&");
    reveal_strlit("\\_");
    reveal_strlit("\\textasciicircum{}");
    reveal_strlit("\\textasciitilde{}");
}

/// The reading of escaped text has, after the escapes of its first `k`
/// characters, read nothing but those characters as pending text.
proof fn lemma_escaped_prefix(s: Seq<char>, k: int)
    requires
        0 <= k <= s.len(),
    ensures
        latex_scan(escape_spec(s, false), escape_spec(s.take(k), false).len() as int, seq![], s.take(k))
            == latex_inline_model(escape_spec(s, false)),
    decreases k,
{
    let e = escape_spec(s, false);
    if k == 0 {
        assert(s.take(0) =~= seq![]);
        assert(escape_spec(s.take(0), false) =~= seq![]);
    } else {
        lemma_escaped_prefix(s, k - 1);
        let a = s.take(k - 1);
        let c = s[k - 1];
        let b = s.skip(k);
        assert(s =~= a + seq![c] + b);
        lemma_escape_concat(a + seq![c], b);
        lemma_escape_concat(a, seq![c]);
        assert(seq![c].drop_last() =~= Seq::<char>::empty());
        assert(seq![c].last() == c);
        assert(escape_spec(Seq::<char>::empty(), false) =~= Seq::<char>::empty());
        assert(escape_spec(seq![c], false) == escape_spec(seq![c].drop_last(), false) + escape_char_spec(c, false));
        assert(escape_spec(seq![c], false) =~= escape_char_spec(c, false));
        let pre = escape_spec(a, false);
        let u = escape_char_spec(c, false);
        let post = escape_spec(b, false);
        assert(e =~= pre + u + post);
        assert(s.take(k) =~= a + seq![c]);
        assert(a.push(c) =~= s.take(k));
        lemma_escape_step(pre, c, post, a);
        lemma_escape_char_nonempty(c);
        lemma_scan_step(e, pre.len() as int, seq![], a, (pre.len() + u.len()) as int, seq![], a.push(c));
    }
}

/// Text escaped by the LaTeX writer reads back as itself: one text inline
/// holding it, and nothing for empty text.
pub proof fn law_escaped_text_reads_back(s: Seq<char>)
    ensures
        latex_inline_model(escape_spec(s, false)) == if s.len() == 0 {
            Seq::<InlineModel>::empty()
        } else {
            seq![InlineModel::Text(s)]
        },
{
    lemma_escaped_prefix(s, s.len() as int);
    assert(s.take(s.len() as int) =~= s);
}

} // verus!
