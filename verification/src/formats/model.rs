//! The values of inlines, and how reading builds them.
use vstd::prelude::*;

use crate::ast::{Inline, InlineModel, inline_model, inlines_model};
use crate::formats::common::{emphasis_of, joins_text, text_of_inline};

verus! {

/// `res` with `x` appended, a text joined to a text that ends `res`.
pub open spec fn merge_push(res: Seq<InlineModel>, x: InlineModel) -> Seq<InlineModel> {
    match x {
        InlineModel::Text(t) => if res.len() > 0 && res.last() is Text {
            res.drop_last().push(InlineModel::Text(res.last()->Text_0 + t))
        } else {
            res.push(x)
        },
        _ => res.push(x),
    }
}

/// `res` with the pending text `text` appended as text, if there is any.
pub open spec fn flush_model(res: Seq<InlineModel>, text: Seq<char>) -> Seq<InlineModel> {
    if text.len() > 0 {
        merge_push(res, InlineModel::Text(text))
    } else {
        res
    }
}

/// The values of `s.push(x)` are those of `s` followed by that of `x`.
pub proof fn lemma_inlines_model_push(s: Seq<Inline>, x: Inline)
    ensures
        inlines_model(s.push(x)) == inlines_model(s).push(inline_model(x)),
{
    assert(s.push(x).drop_last() =~= s);
}

/// The values of a sequence are the values of its inlines, one for one.
pub proof fn lemma_inlines_model_index(s: Seq<Inline>)
    ensures
        inlines_model(s).len() == s.len(),
        forall|i: int| 0 <= i < s.len() ==> #[trigger] inlines_model(s)[i] == inline_model(s[i]),
    decreases s.len(),
{
    if s.len() > 0 {
        lemma_inlines_model_index(s.drop_last());
    }
}

/// The value of an inline is a text exactly when the inline is.
pub proof fn lemma_model_text(x: Inline)
    ensures
        (inline_model(x) is Text) == (x is Text),
        x is Text ==> inline_model(x)->Text_0 == text_of_inline(x),
{
}

/// Appending with `push_merged` appends the values with `merge_push`.
pub proof fn lemma_push_merged_model(before: Seq<Inline>, after: Seq<Inline>, inl: Inline)
    requires
        !joins_text(before, inl) ==> after == before.push(inl),
        joins_text(before, inl) ==> {
            &&& after.len() == before.len()
            &&& after.drop_last() == before.drop_last()
            &&& after.last() is Text
            &&& text_of_inline(after.last()) == text_of_inline(before.last()) + text_of_inline(inl)
        },
    ensures
        inlines_model(after) == merge_push(inlines_model(before), inline_model(inl)),
{
    lemma_model_text(inl);
    if before.len() > 0 {
        lemma_model_text(before.last());
        assert(inlines_model(before).last() == inline_model(before.last()));
        assert(inlines_model(before).drop_last() =~= inlines_model(before.drop_last()));
    }
    if joins_text(before, inl) {
        lemma_model_text(after.last());
        assert(inline_model(after.last()) == InlineModel::Text(text_of_inline(after.last())));
    } else {
        lemma_inlines_model_push(before, inl);
    }
}

/// The value that bold (`bold`) or italic markup gives content whose values
/// are `p`: a lone italic inside bold, or a lone bold inside italic, becomes
/// bold italic; otherwise the content is wrapped.
pub open spec fn emphasis_model(p: Seq<InlineModel>, bold: bool) -> InlineModel {
    if p.len() == 1 && bold && p[0] is Italic {
        InlineModel::BoldItalic(p[0]->Italic_0)
    } else if p.len() == 1 && !bold && p[0] is Bold {
        InlineModel::BoldItalic(p[0]->Bold_0)
    } else if bold {
        InlineModel::Bold(p)
    } else {
        InlineModel::Italic(p)
    }
}

/// What `emphasis_of` says, read over values.
pub proof fn lemma_emphasis_model(parsed: Seq<Inline>, bold: bool, r: Inline)
    requires
        emphasis_of(parsed, bold, r),
    ensures
        inline_model(r) == emphasis_model(inlines_model(parsed), bold),
{
    if parsed.len() == 1 {
        let d = parsed.drop_last();
        assert(d =~= Seq::<Inline>::empty());
        assert(inlines_model(d) =~= Seq::<InlineModel>::empty());
        assert(inlines_model(parsed) == inlines_model(d).push(inline_model(parsed.last())));
        assert(parsed.last() == parsed[0]);
        assert(inlines_model(parsed) =~= seq![inline_model(parsed[0])]);
    }
    let p = inlines_model(parsed);
    lemma_inlines_model_index(parsed);
    if parsed.len() == 1 {
        lemma_model_kind(parsed[0]);
        assert(p[0] == inline_model(parsed[0]));
    }
    if parsed.len() == 1 && bold && parsed[0] is Italic {
        assert(inline_model(r) == InlineModel::BoldItalic(inlines_model(parsed[0]->Italic_0@)));
    } else if parsed.len() == 1 && !bold && parsed[0] is Bold {
        assert(inline_model(r) == InlineModel::BoldItalic(inlines_model(parsed[0]->Bold_0@)));
    } else if bold {
        let v = r->Bold_0;
        assert(inline_model(r) == InlineModel::Bold(inlines_model(v@)));
    } else {
        let v = r->Italic_0;
        assert(inline_model(r) == InlineModel::Italic(inlines_model(v@)));
    }
}

/// The value of an inline is bold, or italic, exactly when the inline is,
/// with the values of its children.
pub proof fn lemma_model_kind(x: Inline)
    ensures
        (inline_model(x) is Bold) == (x is Bold),
        (inline_model(x) is Italic) == (x is Italic),
        x is Bold ==> inline_model(x)->Bold_0 == inlines_model(x->Bold_0@),
        x is Italic ==> inline_model(x)->Italic_0 == inlines_model(x->Italic_0@),
{
}


} // verus!
