//! Equality of documents, strings compared by their text.
use vstd::prelude::*;

use crate::ast::{block_model, blocks_model, cells_model, definitions_model, descriptions_model, inline_model, inlines_model, items_model, opt_string, BlockModel, rows_model, Block, ColumnAlignment, DescriptionItem, Document, Inline, InlineModel, ListItem, TableCell};
use crate::text::{chars_of_string, eq};

verus! {

pub open spec fn opt_string_eq(a: Option<String>, b: Option<String>) -> bool {
    match (a, b) {
        (Some(x), Some(y)) => x@ == y@,
        (None, None) => true,
        _ => false,
    }
}

pub open spec fn inlines_eq_spec(a: Seq<Inline>, b: Seq<Inline>) -> bool
    decreases a,
{
    &&& a.len() == b.len()
    &&& a.len() > 0 ==> {
        &&& inlines_eq_spec(a.drop_last(), b.drop_last())
        &&& inline_eq_spec(a.last(), b.last())
    }
}

pub open spec fn inline_eq_spec(a: Inline, b: Inline) -> bool
    decreases a,
{
    match (a, b) {
        (Inline::Text(x), Inline::Text(y)) => x@ == y@,
        (Inline::InlineCode(x), Inline::InlineCode(y)) => x@ == y@,
        (Inline::Bold(x), Inline::Bold(y)) => inlines_eq_spec(x@, y@),
        (Inline::Italic(x), Inline::Italic(y)) => inlines_eq_spec(x@, y@),
        (Inline::BoldItalic(x), Inline::BoldItalic(y)) => inlines_eq_spec(x@, y@),
        (Inline::Strikethrough(x), Inline::Strikethrough(y)) => inlines_eq_spec(x@, y@),
        (Inline::Superscript(x), Inline::Superscript(y)) => inlines_eq_spec(x@, y@),
        (Inline::Subscript(x), Inline::Subscript(y)) => inlines_eq_spec(x@, y@),
        (Inline::Link { url: u1, text: t1, title: s1 }, Inline::Link { url: u2, text: t2, title: s2 }) => {
            &&& u1@ == u2@
            &&& inlines_eq_spec(t1@, t2@)
            &&& opt_string_eq(s1, s2)
        },
        (
            Inline::Image { url: u1, alt: a1, title: s1, link: l1 },
            Inline::Image { url: u2, alt: a2, title: s2, link: l2 },
        ) => {
            &&& u1@ == u2@
            &&& inlines_eq_spec(a1@, a2@)
            &&& opt_string_eq(s1, s2)
            &&& opt_string_eq(l1, l2)
        },
        (Inline::HardLineBreak, Inline::HardLineBreak) => true,
        (Inline::SoftLineBreak, Inline::SoftLineBreak) => true,
        (Inline::RawInline { format: f1, content: c1 }, Inline::RawInline { format: f2, content: c2 }) => {
            opt_string_eq(f1, f2) && c1@ == c2@
        },
        _ => false,
    }
}

pub open spec fn cells_eq_spec(a: Seq<TableCell>, b: Seq<TableCell>) -> bool
    decreases a.len(),
{
    &&& a.len() == b.len()
    &&& a.len() > 0 ==> {
        &&& cells_eq_spec(a.drop_last(), b.drop_last())
        &&& inlines_eq_spec(a.last().content@, b.last().content@)
        &&& a.last().colspan == b.last().colspan
        &&& a.last().rowspan == b.last().rowspan
    }
}

pub open spec fn rows_eq_spec(a: Seq<Vec<TableCell>>, b: Seq<Vec<TableCell>>) -> bool
    decreases a.len(),
{
    &&& a.len() == b.len()
    &&& a.len() > 0 ==> {
        &&& rows_eq_spec(a.drop_last(), b.drop_last())
        &&& cells_eq_spec(a.last()@, b.last()@)
    }
}

pub open spec fn blocks_eq_spec(a: Seq<Block>, b: Seq<Block>) -> bool
    decreases a,
{
    &&& a.len() == b.len()
    &&& a.len() > 0 ==> {
        &&& blocks_eq_spec(a.drop_last(), b.drop_last())
        &&& block_eq_spec(a.last(), b.last())
    }
}

pub open spec fn items_eq_spec(a: Seq<ListItem>, b: Seq<ListItem>) -> bool
    decreases a,
{
    &&& a.len() == b.len()
    &&& a.len() > 0 ==> {
        &&& items_eq_spec(a.drop_last(), b.drop_last())
        &&& blocks_eq_spec(a.last().content@, b.last().content@)
    }
}

pub open spec fn definitions_eq_spec(a: Seq<Vec<Block>>, b: Seq<Vec<Block>>) -> bool
    decreases a,
{
    &&& a.len() == b.len()
    &&& a.len() > 0 ==> {
        &&& definitions_eq_spec(a.drop_last(), b.drop_last())
        &&& blocks_eq_spec(a.last()@, b.last()@)
    }
}

pub open spec fn descriptions_eq_spec(a: Seq<DescriptionItem>, b: Seq<DescriptionItem>) -> bool
    decreases a,
{
    &&& a.len() == b.len()
    &&& a.len() > 0 ==> {
        &&& descriptions_eq_spec(a.drop_last(), b.drop_last())
        &&& inlines_eq_spec(a.last().term@, b.last().term@)
        &&& definitions_eq_spec(a.last().definitions@, b.last().definitions@)
    }
}

pub open spec fn block_eq_spec(a: Block, b: Block) -> bool
    decreases a,
{
    match (a, b) {
        (Block::Heading { level: l1, content: c1 }, Block::Heading { level: l2, content: c2 }) => {
            l1 == l2 && inlines_eq_spec(c1@, c2@)
        },
        (Block::Paragraph { content: c1 }, Block::Paragraph { content: c2 }) => inlines_eq_spec(
            c1@,
            c2@,
        ),
        (Block::CodeBlock { language: l1, content: c1 }, Block::CodeBlock { language: l2, content: c2 }) => {
            opt_string_eq(l1, l2) && c1@ == c2@
        },
        (Block::BlockQuote { children: c1 }, Block::BlockQuote { children: c2 }) => blocks_eq_spec(
            c1@,
            c2@,
        ),
        (Block::UnorderedList { items: i1 }, Block::UnorderedList { items: i2 }) => items_eq_spec(
            i1@,
            i2@,
        ),
        (Block::OrderedList { start: s1, items: i1 }, Block::OrderedList { start: s2, items: i2 }) => {
            s1 == s2 && items_eq_spec(i1@, i2@)
        },
        (Block::DescriptionList { items: i1 }, Block::DescriptionList { items: i2 }) => descriptions_eq_spec(
            i1@,
            i2@,
        ),
        (
            Block::Table { headers: h1, alignments: a1, rows: r1 },
            Block::Table { headers: h2, alignments: a2, rows: r2 },
        ) => {
            &&& cells_eq_spec(h1@, h2@)
            &&& a1@ == a2@
            &&& rows_eq_spec(r1@, r2@)
        },
        (Block::HorizontalRule, Block::HorizontalRule) => true,
        (Block::RawBlock { format: f1, content: c1 }, Block::RawBlock { format: f2, content: c2 }) => {
            opt_string_eq(f1, f2) && c1@ == c2@
        },
        _ => false,
    }
}

/// A copy of a block.
pub fn copy_block(b: &Block) -> (r: Block)
    ensures
        block_eq_spec(*b, r),
    decreases *b, 1nat,
{
    match b {
        Block::Heading { level, content } => Block::Heading { level: *level, content: copy_inlines(content) },
        Block::Paragraph { content } => Block::Paragraph { content: copy_inlines(content) },
        Block::CodeBlock { language, content } => Block::CodeBlock { language: language.clone(), content: content.clone() },
        Block::BlockQuote { children } => Block::BlockQuote { children: copy_blocks(children) },
        Block::UnorderedList { items } => Block::UnorderedList { items: copy_items(items) },
        Block::OrderedList { start, items } => Block::OrderedList { start: *start, items: copy_items(items) },
        Block::DescriptionList { items } => Block::DescriptionList { items: copy_descriptions(items) },
        Block::Table { headers, alignments, rows } => Block::Table {
            headers: copy_cells(headers),
            alignments: copy_alignments(alignments),
            rows: copy_rows(rows),
        },
        Block::HorizontalRule => Block::HorizontalRule,
        Block::RawBlock { format, content } => Block::RawBlock { format: format.clone(), content: content.clone() },
    }
}

/// A copy of a sequence of blocks.
pub fn copy_blocks(v: &Vec<Block>) -> (r: Vec<Block>)
    ensures
        blocks_eq_spec(v@, r@),
    decreases *v, 0nat,
{
    let mut r: Vec<Block> = Vec::new();
    let mut k: usize = 0;
    while k < v.len()
        invariant
            k <= v@.len(),
            blocks_eq_spec(v@.subrange(0, k as int), r@),
        decreases v@.len() - k,
    {
        let ghost r0 = r@;
        assert(decreases_to!(*v => v@[k as int]));
        r.push(copy_block(&v[k]));
        k += 1;
        assert(r@.drop_last() =~= r0);
        assert(v@.subrange(0, k as int).drop_last() =~= v@.subrange(0, k - 1));
    }
    assert(v@.subrange(0, k as int) =~= v@);
    r
}

/// A copy of a sequence of list items.
pub fn copy_items(v: &Vec<ListItem>) -> (r: Vec<ListItem>)
    ensures
        items_eq_spec(v@, r@),
    decreases *v, 0nat,
{
    let mut r: Vec<ListItem> = Vec::new();
    let mut k: usize = 0;
    while k < v.len()
        invariant
            k <= v@.len(),
            items_eq_spec(v@.subrange(0, k as int), r@),
        decreases v@.len() - k,
    {
        let ghost r0 = r@;
        assert(decreases_to!(*v => v@[k as int].content));
        let c = copy_blocks(&v[k].content);
        r.push(ListItem { content: c });
        k += 1;
        assert(r@.drop_last() =~= r0);
        assert(v@.subrange(0, k as int).drop_last() =~= v@.subrange(0, k - 1));
    }
    assert(v@.subrange(0, k as int) =~= v@);
    r
}

/// A copy of a description item.
pub fn copy_description(d: &DescriptionItem) -> (r: DescriptionItem)
    ensures
        inlines_eq_spec(d.term@, r.term@),
        definitions_eq_spec(d.definitions@, r.definitions@),
    decreases *d, 1nat,
{
    let mut defs: Vec<Vec<Block>> = Vec::new();
    let mut k: usize = 0;
    while k < d.definitions.len()
        invariant
            k <= d.definitions@.len(),
            definitions_eq_spec(d.definitions@.subrange(0, k as int), defs@),
        decreases d.definitions@.len() - k,
    {
        let ghost defs0 = defs@;
        assert(decreases_to!(*d => d.definitions@[k as int]));
        defs.push(copy_blocks(&d.definitions[k]));
        k += 1;
        assert(defs@.drop_last() =~= defs0);
        assert(d.definitions@.subrange(0, k as int).drop_last() =~= d.definitions@.subrange(0, k - 1));
    }
    assert(d.definitions@.subrange(0, k as int) =~= d.definitions@);
    DescriptionItem { term: copy_inlines(&d.term), definitions: defs }
}

/// A copy of a sequence of description items.
pub fn copy_descriptions(v: &Vec<DescriptionItem>) -> (r: Vec<DescriptionItem>)
    ensures
        descriptions_eq_spec(v@, r@),
    decreases *v, 0nat,
{
    let mut r: Vec<DescriptionItem> = Vec::new();
    let mut k: usize = 0;
    while k < v.len()
        invariant
            k <= v@.len(),
            descriptions_eq_spec(v@.subrange(0, k as int), r@),
        decreases v@.len() - k,
    {
        let ghost r0 = r@;
        assert(decreases_to!(*v => v@[k as int]));
        r.push(copy_description(&v[k]));
        k += 1;
        assert(r@.drop_last() =~= r0);
        assert(v@.subrange(0, k as int).drop_last() =~= v@.subrange(0, k - 1));
    }
    assert(v@.subrange(0, k as int) =~= v@);
    r
}

/// A copy of a row of cells.
pub fn copy_cells(v: &Vec<TableCell>) -> (r: Vec<TableCell>)
    ensures
        cells_eq_spec(v@, r@),
{
    let mut r: Vec<TableCell> = Vec::new();
    let mut k: usize = 0;
    while k < v.len()
        invariant
            k <= v@.len(),
            cells_eq_spec(v@.subrange(0, k as int), r@),
        decreases v@.len() - k,
    {
        let ghost r0 = r@;
        let c = &v[k];
        r.push(TableCell { content: copy_inlines(&c.content), colspan: c.colspan, rowspan: c.rowspan });
        k += 1;
        assert(r@.drop_last() =~= r0);
        assert(v@.subrange(0, k as int).drop_last() =~= v@.subrange(0, k - 1));
    }
    assert(v@.subrange(0, k as int) =~= v@);
    r
}

/// A copy of the rows of a table.
pub fn copy_rows(v: &Vec<Vec<TableCell>>) -> (r: Vec<Vec<TableCell>>)
    ensures
        rows_eq_spec(v@, r@),
{
    let mut r: Vec<Vec<TableCell>> = Vec::new();
    let mut k: usize = 0;
    while k < v.len()
        invariant
            k <= v@.len(),
            rows_eq_spec(v@.subrange(0, k as int), r@),
        decreases v@.len() - k,
    {
        let ghost r0 = r@;
        r.push(copy_cells(&v[k]));
        k += 1;
        assert(r@.drop_last() =~= r0);
        assert(v@.subrange(0, k as int).drop_last() =~= v@.subrange(0, k - 1));
    }
    assert(v@.subrange(0, k as int) =~= v@);
    r
}

/// A copy of column alignments.
pub fn copy_alignments(v: &Vec<ColumnAlignment>) -> (r: Vec<ColumnAlignment>)
    ensures
        r@ == v@,
{
    let mut r: Vec<ColumnAlignment> = Vec::new();
    let mut k: usize = 0;
    while k < v.len()
        invariant
            k <= v@.len(),
            r@ == v@.subrange(0, k as int),
        decreases v@.len() - k,
    {
        r.push(v[k]);
        k += 1;
        assert(r@ =~= v@.subrange(0, k as int));
    }
    assert(r@ =~= v@);
    r
}

/// A copy of an inline.
pub fn copy_inline(x: &Inline) -> (r: Inline)
    ensures
        inline_eq_spec(*x, r),
    decreases *x, 1nat,
{
    match x {
        Inline::Text(t) => Inline::Text(t.clone()),
        Inline::Bold(v) => Inline::Bold(copy_inlines(v)),
        Inline::Italic(v) => Inline::Italic(copy_inlines(v)),
        Inline::BoldItalic(v) => Inline::BoldItalic(copy_inlines(v)),
        Inline::Strikethrough(v) => Inline::Strikethrough(copy_inlines(v)),
        Inline::Superscript(v) => Inline::Superscript(copy_inlines(v)),
        Inline::Subscript(v) => Inline::Subscript(copy_inlines(v)),
        Inline::InlineCode(t) => Inline::InlineCode(t.clone()),
        Inline::Link { url, text, title } => Inline::Link { url: url.clone(), text: copy_inlines(text), title: title.clone() },
        Inline::Image { url, alt, title, link } => Inline::Image {
            url: url.clone(),
            alt: copy_inlines(alt),
            title: title.clone(),
            link: link.clone(),
        },
        Inline::HardLineBreak => Inline::HardLineBreak,
        Inline::SoftLineBreak => Inline::SoftLineBreak,
        Inline::RawInline { format, content } => Inline::RawInline { format: format.clone(), content: content.clone() },
    }
}

/// A copy of a sequence of inlines.
pub fn copy_inlines(v: &Vec<Inline>) -> (r: Vec<Inline>)
    ensures
        inlines_eq_spec(v@, r@),
    decreases *v, 0nat,
{
    let mut r: Vec<Inline> = Vec::new();
    let mut k: usize = 0;
    while k < v.len()
        invariant
            k <= v@.len(),
            inlines_eq_spec(v@.subrange(0, k as int), r@),
        decreases v@.len() - k,
    {
        let ghost r0 = r@;
        assert(decreases_to!(*v => v@[k as int]));
        r.push(copy_inline(&v[k]));
        k += 1;
        assert(r@.drop_last() =~= r0);
        assert(v@.subrange(0, k as int).drop_last() =~= v@.subrange(0, k - 1));
    }
    assert(v@.subrange(0, k as int) =~= v@);
    r
}

/// Two documents are equal: the same blocks, strings compared by their text.
pub open spec fn documents_equal_spec(a: &Document, b: &Document) -> bool {
    blocks_eq_spec(a.children@, b.children@)
}

fn string_eq(a: &String, b: &String) -> (r: bool)
    ensures
        r == (a@ == b@),
{
    eq(&chars_of_string(a), &chars_of_string(b))
}

fn opt_eq(a: &Option<String>, b: &Option<String>) -> (r: bool)
    ensures
        r == opt_string_eq(*a, *b),
{
    match (a, b) {
        (Some(x), Some(y)) => string_eq(x, y),
        (None, None) => true,
        _ => false,
    }
}

pub(crate) fn inlines_equal(a: &Vec<Inline>, b: &Vec<Inline>) -> (r: bool)
    ensures
        r == inlines_eq_spec(a@, b@),
    decreases a, 1nat,
{
    if a.len() != b.len() {
        return false;
    }
    let mut r = true;
    let mut i: usize = 0;
    assert(a@.subrange(0, 0).len() == 0);
    while i < a.len()
        invariant
            i <= a@.len(),
            a@.len() == b@.len(),
            r == inlines_eq_spec(a@.subrange(0, i as int), b@.subrange(0, i as int)),
        decreases a.len() - i,
    {
        assert(decreases_to!(a => a@[i as int]));
        let e = r && inline_equal(&a[i], &b[i]);
        proof {
            assert(a@.subrange(0, i + 1).drop_last() =~= a@.subrange(0, i as int));
            assert(b@.subrange(0, i + 1).drop_last() =~= b@.subrange(0, i as int));
        }
        r = e;
        i += 1;
    }
    proof {
        assert(a@.subrange(0, a@.len() as int) =~= a@);
        assert(b@.subrange(0, b@.len() as int) =~= b@);
    }
    r
}

pub(crate) fn inline_equal(a: &Inline, b: &Inline) -> (r: bool)
    ensures
        r == inline_eq_spec(*a, *b),
    decreases a, 0nat,
{
    match (a, b) {
        (Inline::Text(x), Inline::Text(y)) => string_eq(x, y),
        (Inline::InlineCode(x), Inline::InlineCode(y)) => string_eq(x, y),
        (Inline::Bold(x), Inline::Bold(y)) => inlines_equal(x, y),
        (Inline::Italic(x), Inline::Italic(y)) => inlines_equal(x, y),
        (Inline::BoldItalic(x), Inline::BoldItalic(y)) => inlines_equal(x, y),
        (Inline::Strikethrough(x), Inline::Strikethrough(y)) => inlines_equal(x, y),
        (Inline::Superscript(x), Inline::Superscript(y)) => inlines_equal(x, y),
        (Inline::Subscript(x), Inline::Subscript(y)) => inlines_equal(x, y),
        (Inline::Link { url: u1, text: t1, title: s1 }, Inline::Link { url: u2, text: t2, title: s2 }) => {
            string_eq(u1, u2) && inlines_equal(t1, t2) && opt_eq(s1, s2)
        },
        (
            Inline::Image { url: u1, alt: a1, title: s1, link: l1 },
            Inline::Image { url: u2, alt: a2, title: s2, link: l2 },
        ) => string_eq(u1, u2) && inlines_equal(a1, a2) && opt_eq(s1, s2) && opt_eq(l1, l2),
        (Inline::HardLineBreak, Inline::HardLineBreak) => true,
        (Inline::SoftLineBreak, Inline::SoftLineBreak) => true,
        (Inline::RawInline { format: f1, content: c1 }, Inline::RawInline { format: f2, content: c2 }) => {
            opt_eq(f1, f2) && string_eq(c1, c2)
        },
        _ => false,
    }
}

pub(crate) fn cells_equal(a: &Vec<TableCell>, b: &Vec<TableCell>) -> (r: bool)
    ensures
        r == cells_eq_spec(a@, b@),
{
    if a.len() != b.len() {
        return false;
    }
    let mut r = true;
    let mut i: usize = 0;
    while i < a.len()
        invariant
            i <= a@.len(),
            a@.len() == b@.len(),
            r == cells_eq_spec(a@.subrange(0, i as int), b@.subrange(0, i as int)),
        decreases a.len() - i,
    {
        let e = r && inlines_equal(&a[i].content, &b[i].content) && a[i].colspan == b[i].colspan
            && a[i].rowspan == b[i].rowspan;
        proof {
            assert(a@.subrange(0, i + 1).drop_last() =~= a@.subrange(0, i as int));
            assert(b@.subrange(0, i + 1).drop_last() =~= b@.subrange(0, i as int));
        }
        r = e;
        i += 1;
    }
    proof {
        assert(a@.subrange(0, a@.len() as int) =~= a@);
        assert(b@.subrange(0, b@.len() as int) =~= b@);
    }
    r
}

pub(crate) fn rows_equal(a: &Vec<Vec<TableCell>>, b: &Vec<Vec<TableCell>>) -> (r: bool)
    ensures
        r == rows_eq_spec(a@, b@),
{
    if a.len() != b.len() {
        return false;
    }
    let mut r = true;
    let mut i: usize = 0;
    while i < a.len()
        invariant
            i <= a@.len(),
            a@.len() == b@.len(),
            r == rows_eq_spec(a@.subrange(0, i as int), b@.subrange(0, i as int)),
        decreases a.len() - i,
    {
        let e = r && cells_equal(&a[i], &b[i]);
        proof {
            assert(a@.subrange(0, i + 1).drop_last() =~= a@.subrange(0, i as int));
            assert(b@.subrange(0, i + 1).drop_last() =~= b@.subrange(0, i as int));
        }
        r = e;
        i += 1;
    }
    proof {
        assert(a@.subrange(0, a@.len() as int) =~= a@);
        assert(b@.subrange(0, b@.len() as int) =~= b@);
    }
    r
}

fn alignments_equal(a: &Vec<ColumnAlignment>, b: &Vec<ColumnAlignment>) -> (r: bool)
    ensures
        r == (a@ == b@),
{
    if a.len() != b.len() {
        return false;
    }
    let mut i: usize = 0;
    while i < a.len()
        invariant
            i <= a@.len(),
            a@.len() == b@.len(),
            forall|j: int| 0 <= j < i ==> a@[j] == b@[j],
        decreases a.len() - i,
    {
        if a[i] != b[i] {
            return false;
        }
        i += 1;
    }
    assert(a@ =~= b@);
    true
}

pub(crate) fn blocks_equal(a: &Vec<Block>, b: &Vec<Block>) -> (r: bool)
    ensures
        r == blocks_eq_spec(a@, b@),
    decreases a, 1nat,
{
    if a.len() != b.len() {
        return false;
    }
    let mut r = true;
    let mut i: usize = 0;
    while i < a.len()
        invariant
            i <= a@.len(),
            a@.len() == b@.len(),
            r == blocks_eq_spec(a@.subrange(0, i as int), b@.subrange(0, i as int)),
        decreases a.len() - i,
    {
        assert(decreases_to!(a => a@[i as int]));
        let e = r && block_equal(&a[i], &b[i]);
        proof {
            assert(a@.subrange(0, i + 1).drop_last() =~= a@.subrange(0, i as int));
            assert(b@.subrange(0, i + 1).drop_last() =~= b@.subrange(0, i as int));
        }
        r = e;
        i += 1;
    }
    proof {
        assert(a@.subrange(0, a@.len() as int) =~= a@);
        assert(b@.subrange(0, b@.len() as int) =~= b@);
    }
    r
}

fn items_equal(a: &Vec<ListItem>, b: &Vec<ListItem>) -> (r: bool)
    ensures
        r == items_eq_spec(a@, b@),
    decreases a, 0nat,
{
    if a.len() != b.len() {
        return false;
    }
    let mut r = true;
    let mut i: usize = 0;
    while i < a.len()
        invariant
            i <= a@.len(),
            a@.len() == b@.len(),
            r == items_eq_spec(a@.subrange(0, i as int), b@.subrange(0, i as int)),
        decreases a.len() - i,
    {
        assert(decreases_to!(a => a@[i as int]));
        assert(decreases_to!(a@[i as int] => a@[i as int].content));
        let e = r && blocks_equal(&a[i].content, &b[i].content);
        proof {
            assert(a@.subrange(0, i + 1).drop_last() =~= a@.subrange(0, i as int));
            assert(b@.subrange(0, i + 1).drop_last() =~= b@.subrange(0, i as int));
        }
        r = e;
        i += 1;
    }
    proof {
        assert(a@.subrange(0, a@.len() as int) =~= a@);
        assert(b@.subrange(0, b@.len() as int) =~= b@);
    }
    r
}

fn definitions_equal(a: &Vec<Vec<Block>>, b: &Vec<Vec<Block>>) -> (r: bool)
    ensures
        r == definitions_eq_spec(a@, b@),
    decreases a, 0nat,
{
    if a.len() != b.len() {
        return false;
    }
    let mut r = true;
    let mut i: usize = 0;
    while i < a.len()
        invariant
            i <= a@.len(),
            a@.len() == b@.len(),
            r == definitions_eq_spec(a@.subrange(0, i as int), b@.subrange(0, i as int)),
        decreases a.len() - i,
    {
        assert(decreases_to!(a => a@[i as int]));
        let e = r && blocks_equal(&a[i], &b[i]);
        proof {
            assert(a@.subrange(0, i + 1).drop_last() =~= a@.subrange(0, i as int));
            assert(b@.subrange(0, i + 1).drop_last() =~= b@.subrange(0, i as int));
        }
        r = e;
        i += 1;
    }
    proof {
        assert(a@.subrange(0, a@.len() as int) =~= a@);
        assert(b@.subrange(0, b@.len() as int) =~= b@);
    }
    r
}

fn descriptions_equal(a: &Vec<DescriptionItem>, b: &Vec<DescriptionItem>) -> (r: bool)
    ensures
        r == descriptions_eq_spec(a@, b@),
    decreases a, 1nat,
{
    if a.len() != b.len() {
        return false;
    }
    let mut r = true;
    let mut i: usize = 0;
    while i < a.len()
        invariant
            i <= a@.len(),
            a@.len() == b@.len(),
            r == descriptions_eq_spec(a@.subrange(0, i as int), b@.subrange(0, i as int)),
        decreases a.len() - i,
    {
        assert(decreases_to!(a => a@[i as int]));
        assert(decreases_to!(a@[i as int] => a@[i as int].definitions));
        let e = r && inlines_equal(&a[i].term, &b[i].term) && definitions_equal(
            &a[i].definitions,
            &b[i].definitions,
        );
        proof {
            assert(a@.subrange(0, i + 1).drop_last() =~= a@.subrange(0, i as int));
            assert(b@.subrange(0, i + 1).drop_last() =~= b@.subrange(0, i as int));
        }
        r = e;
        i += 1;
    }
    proof {
        assert(a@.subrange(0, a@.len() as int) =~= a@);
        assert(b@.subrange(0, b@.len() as int) =~= b@);
    }
    r
}

pub(crate) fn block_equal(a: &Block, b: &Block) -> (r: bool)
    ensures
        r == block_eq_spec(*a, *b),
    decreases a, 2nat,
{
    match (a, b) {
        (Block::Heading { level: l1, content: c1 }, Block::Heading { level: l2, content: c2 }) => {
            *l1 == *l2 && inlines_equal(c1, c2)
        },
        (Block::Paragraph { content: c1 }, Block::Paragraph { content: c2 }) => inlines_equal(c1, c2),
        (Block::CodeBlock { language: l1, content: c1 }, Block::CodeBlock { language: l2, content: c2 }) => {
            opt_eq(l1, l2) && string_eq(c1, c2)
        },
        (Block::BlockQuote { children: c1 }, Block::BlockQuote { children: c2 }) => blocks_equal(c1, c2),
        (Block::UnorderedList { items: i1 }, Block::UnorderedList { items: i2 }) => items_equal(i1, i2),
        (Block::OrderedList { start: s1, items: i1 }, Block::OrderedList { start: s2, items: i2 }) => {
            *s1 == *s2 && items_equal(i1, i2)
        },
        (Block::DescriptionList { items: i1 }, Block::DescriptionList { items: i2 }) => descriptions_equal(
            i1,
            i2,
        ),
        (
            Block::Table { headers: h1, alignments: a1, rows: r1 },
            Block::Table { headers: h2, alignments: a2, rows: r2 },
        ) => cells_equal(h1, h2) && alignments_equal(a1, a2) && rows_equal(r1, r2),
        (Block::HorizontalRule, Block::HorizontalRule) => true,
        (Block::RawBlock { format: f1, content: c1 }, Block::RawBlock { format: f2, content: c2 }) => {
            opt_eq(f1, f2) && string_eq(c1, c2)
        },
        _ => false,
    }
}

/// Whether two documents are equal, strings compared by their text.
pub fn documents_equal(a: &Document, b: &Document) -> (r: bool)
    ensures
        r == documents_equal_spec(a, b),
{
    blocks_equal(&a.children, &b.children)
}

/// Every inline sequence equals itself.
pub proof fn lemma_inlines_eq_reflexive(a: Seq<Inline>)
    ensures
        inlines_eq_spec(a, a),
    decreases a,
{
    if a.len() > 0 {
        lemma_inlines_eq_reflexive(a.drop_last());
        lemma_inline_eq_reflexive(a.last());
    }
}

/// Every inline node equals itself.
pub proof fn lemma_inline_eq_reflexive(a: Inline)
    ensures
        inline_eq_spec(a, a),
    decreases a,
{
    match a {
        Inline::Bold(c) => lemma_inlines_eq_reflexive(c@),
        Inline::Italic(c) => lemma_inlines_eq_reflexive(c@),
        Inline::BoldItalic(c) => lemma_inlines_eq_reflexive(c@),
        Inline::Strikethrough(c) => lemma_inlines_eq_reflexive(c@),
        Inline::Superscript(c) => lemma_inlines_eq_reflexive(c@),
        Inline::Subscript(c) => lemma_inlines_eq_reflexive(c@),
        Inline::Link { text, .. } => lemma_inlines_eq_reflexive(text@),
        Inline::Image { alt, .. } => lemma_inlines_eq_reflexive(alt@),
        _ => {},
    }
}

pub proof fn lemma_cells_eq_reflexive(a: Seq<TableCell>)
    ensures
        cells_eq_spec(a, a),
    decreases a.len(),
{
    if a.len() > 0 {
        lemma_cells_eq_reflexive(a.drop_last());
        lemma_inlines_eq_reflexive(a.last().content@);
    }
}

pub proof fn lemma_rows_eq_reflexive(a: Seq<Vec<TableCell>>)
    ensures
        rows_eq_spec(a, a),
    decreases a.len(),
{
    if a.len() > 0 {
        lemma_rows_eq_reflexive(a.drop_last());
        lemma_cells_eq_reflexive(a.last()@);
    }
}

/// Every block sequence equals itself.
pub proof fn lemma_blocks_eq_reflexive(a: Seq<Block>)
    ensures
        blocks_eq_spec(a, a),
    decreases a,
{
    if a.len() > 0 {
        lemma_blocks_eq_reflexive(a.drop_last());
        lemma_block_eq_reflexive(a.last());
    }
}

pub proof fn lemma_items_eq_reflexive(a: Seq<ListItem>)
    ensures
        items_eq_spec(a, a),
    decreases a,
{
    if a.len() > 0 {
        lemma_items_eq_reflexive(a.drop_last());
        lemma_blocks_eq_reflexive(a.last().content@);
    }
}

pub proof fn lemma_definitions_eq_reflexive(a: Seq<Vec<Block>>)
    ensures
        definitions_eq_spec(a, a),
    decreases a,
{
    if a.len() > 0 {
        lemma_definitions_eq_reflexive(a.drop_last());
        lemma_blocks_eq_reflexive(a.last()@);
    }
}

pub proof fn lemma_descriptions_eq_reflexive(a: Seq<DescriptionItem>)
    ensures
        descriptions_eq_spec(a, a),
    decreases a,
{
    if a.len() > 0 {
        lemma_descriptions_eq_reflexive(a.drop_last());
        lemma_inlines_eq_reflexive(a.last().term@);
        lemma_definitions_eq_reflexive(a.last().definitions@);
    }
}

/// Every block equals itself.
pub proof fn lemma_block_eq_reflexive(a: Block)
    ensures
        block_eq_spec(a, a),
    decreases a,
{
    match a {
        Block::Heading { content, .. } => lemma_inlines_eq_reflexive(content@),
        Block::Paragraph { content } => lemma_inlines_eq_reflexive(content@),
        Block::BlockQuote { children } => lemma_blocks_eq_reflexive(children@),
        Block::UnorderedList { items } => lemma_items_eq_reflexive(items@),
        Block::OrderedList { items, .. } => lemma_items_eq_reflexive(items@),
        Block::DescriptionList { items } => lemma_descriptions_eq_reflexive(items@),
        Block::Table { headers, rows, .. } => {
            lemma_cells_eq_reflexive(headers@);
            lemma_rows_eq_reflexive(rows@);
        },
        _ => {},
    }
}

/// Every document equals itself.
pub proof fn law_document_equals_itself(d: Document)
    ensures
        documents_equal_spec(&d, &d),
{
    lemma_blocks_eq_reflexive(d.children@);
}

/// Inline sequences are equal either way round.
pub proof fn lemma_inlines_eq_symmetric(a: Seq<Inline>, b: Seq<Inline>)
    ensures
        inlines_eq_spec(a, b) == inlines_eq_spec(b, a),
    decreases a,
{
    if a.len() > 0 && a.len() == b.len() {
        lemma_inlines_eq_symmetric(a.drop_last(), b.drop_last());
        lemma_inline_eq_symmetric(a.last(), b.last());
    }
}

pub proof fn lemma_inline_eq_symmetric(a: Inline, b: Inline)
    ensures
        inline_eq_spec(a, b) == inline_eq_spec(b, a),
    decreases a,
{
    match (a, b) {
        (Inline::Bold(x), Inline::Bold(y)) => lemma_inlines_eq_symmetric(x@, y@),
        (Inline::Italic(x), Inline::Italic(y)) => lemma_inlines_eq_symmetric(x@, y@),
        (Inline::BoldItalic(x), Inline::BoldItalic(y)) => lemma_inlines_eq_symmetric(x@, y@),
        (Inline::Strikethrough(x), Inline::Strikethrough(y)) => lemma_inlines_eq_symmetric(x@, y@),
        (Inline::Superscript(x), Inline::Superscript(y)) => lemma_inlines_eq_symmetric(x@, y@),
        (Inline::Subscript(x), Inline::Subscript(y)) => lemma_inlines_eq_symmetric(x@, y@),
        (Inline::Link { text: x, .. }, Inline::Link { text: y, .. }) => lemma_inlines_eq_symmetric(x@, y@),
        (Inline::Image { alt: x, .. }, Inline::Image { alt: y, .. }) => lemma_inlines_eq_symmetric(x@, y@),
        _ => {},
    }
}

pub proof fn lemma_cells_eq_symmetric(a: Seq<TableCell>, b: Seq<TableCell>)
    ensures
        cells_eq_spec(a, b) == cells_eq_spec(b, a),
    decreases a.len(),
{
    if a.len() > 0 && a.len() == b.len() {
        lemma_cells_eq_symmetric(a.drop_last(), b.drop_last());
        lemma_inlines_eq_symmetric(a.last().content@, b.last().content@);
    }
}

pub proof fn lemma_rows_eq_symmetric(a: Seq<Vec<TableCell>>, b: Seq<Vec<TableCell>>)
    ensures
        rows_eq_spec(a, b) == rows_eq_spec(b, a),
    decreases a.len(),
{
    if a.len() > 0 && a.len() == b.len() {
        lemma_rows_eq_symmetric(a.drop_last(), b.drop_last());
        lemma_cells_eq_symmetric(a.last()@, b.last()@);
    }
}

pub proof fn lemma_blocks_eq_symmetric(a: Seq<Block>, b: Seq<Block>)
    ensures
        blocks_eq_spec(a, b) == blocks_eq_spec(b, a),
    decreases a,
{
    if a.len() > 0 && a.len() == b.len() {
        lemma_blocks_eq_symmetric(a.drop_last(), b.drop_last());
        lemma_block_eq_symmetric(a.last(), b.last());
    }
}

pub proof fn lemma_items_eq_symmetric(a: Seq<ListItem>, b: Seq<ListItem>)
    ensures
        items_eq_spec(a, b) == items_eq_spec(b, a),
    decreases a,
{
    if a.len() > 0 && a.len() == b.len() {
        lemma_items_eq_symmetric(a.drop_last(), b.drop_last());
        lemma_blocks_eq_symmetric(a.last().content@, b.last().content@);
    }
}

pub proof fn lemma_definitions_eq_symmetric(a: Seq<Vec<Block>>, b: Seq<Vec<Block>>)
    ensures
        definitions_eq_spec(a, b) == definitions_eq_spec(b, a),
    decreases a,
{
    if a.len() > 0 && a.len() == b.len() {
        lemma_definitions_eq_symmetric(a.drop_last(), b.drop_last());
        lemma_blocks_eq_symmetric(a.last()@, b.last()@);
    }
}

pub proof fn lemma_descriptions_eq_symmetric(a: Seq<DescriptionItem>, b: Seq<DescriptionItem>)
    ensures
        descriptions_eq_spec(a, b) == descriptions_eq_spec(b, a),
    decreases a,
{
    if a.len() > 0 && a.len() == b.len() {
        lemma_descriptions_eq_symmetric(a.drop_last(), b.drop_last());
        lemma_inlines_eq_symmetric(a.last().term@, b.last().term@);
        lemma_definitions_eq_symmetric(a.last().definitions@, b.last().definitions@);
    }
}

pub proof fn lemma_block_eq_symmetric(a: Block, b: Block)
    ensures
        block_eq_spec(a, b) == block_eq_spec(b, a),
    decreases a,
{
    match (a, b) {
        (Block::Heading { content: x, .. }, Block::Heading { content: y, .. }) => lemma_inlines_eq_symmetric(x@, y@),
        (Block::Paragraph { content: x }, Block::Paragraph { content: y }) => lemma_inlines_eq_symmetric(x@, y@),
        (Block::BlockQuote { children: x }, Block::BlockQuote { children: y }) => lemma_blocks_eq_symmetric(x@, y@),
        (Block::UnorderedList { items: x }, Block::UnorderedList { items: y }) => lemma_items_eq_symmetric(x@, y@),
        (Block::OrderedList { items: x, .. }, Block::OrderedList { items: y, .. }) => lemma_items_eq_symmetric(x@, y@),
        (Block::DescriptionList { items: x }, Block::DescriptionList { items: y }) => lemma_descriptions_eq_symmetric(
            x@,
            y@,
        ),
        (Block::Table { headers: h1, rows: r1, .. }, Block::Table { headers: h2, rows: r2, .. }) => {
            lemma_cells_eq_symmetric(h1@, h2@);
            lemma_rows_eq_symmetric(r1@, r2@);
        },
        _ => {},
    }
}

/// Document equality does not depend on the order of the two documents.
pub proof fn law_document_equality_is_symmetric(a: Document, b: Document)
    ensures
        documents_equal_spec(&a, &b) == documents_equal_spec(&b, &a),
{
    lemma_blocks_eq_symmetric(a.children@, b.children@);
}

/// Equality of inline sequences is transitive.
pub proof fn lemma_inlines_eq_transitive(a: Seq<Inline>, b: Seq<Inline>, c: Seq<Inline>)
    ensures
        inlines_eq_spec(a, b) && inlines_eq_spec(b, c) ==> inlines_eq_spec(a, c),
    decreases a,
{
    if a.len() > 0 && a.len() == b.len() && b.len() == c.len() {
        lemma_inlines_eq_transitive(a.drop_last(), b.drop_last(), c.drop_last());
        lemma_inline_eq_transitive(a.last(), b.last(), c.last());
    }
}

pub proof fn lemma_inline_eq_transitive(a: Inline, b: Inline, c: Inline)
    ensures
        inline_eq_spec(a, b) && inline_eq_spec(b, c) ==> inline_eq_spec(a, c),
    decreases a,
{
    match (a, b, c) {
        (Inline::Bold(x), Inline::Bold(y), Inline::Bold(z)) => lemma_inlines_eq_transitive(x@, y@, z@),
        (Inline::Italic(x), Inline::Italic(y), Inline::Italic(z)) => lemma_inlines_eq_transitive(x@, y@, z@),
        (Inline::BoldItalic(x), Inline::BoldItalic(y), Inline::BoldItalic(z)) => lemma_inlines_eq_transitive(x@, y@, z@),
        (Inline::Strikethrough(x), Inline::Strikethrough(y), Inline::Strikethrough(z)) => lemma_inlines_eq_transitive(x@, y@, z@),
        (Inline::Superscript(x), Inline::Superscript(y), Inline::Superscript(z)) => lemma_inlines_eq_transitive(x@, y@, z@),
        (Inline::Subscript(x), Inline::Subscript(y), Inline::Subscript(z)) => lemma_inlines_eq_transitive(x@, y@, z@),
        (Inline::Link { text: x, .. }, Inline::Link { text: y, .. }, Inline::Link { text: z, .. }) => lemma_inlines_eq_transitive(x@, y@, z@),
        (Inline::Image { alt: x, .. }, Inline::Image { alt: y, .. }, Inline::Image { alt: z, .. }) => lemma_inlines_eq_transitive(x@, y@, z@),
        _ => {},
    }
}

pub proof fn lemma_cells_eq_transitive(a: Seq<TableCell>, b: Seq<TableCell>, c: Seq<TableCell>)
    ensures
        cells_eq_spec(a, b) && cells_eq_spec(b, c) ==> cells_eq_spec(a, c),
    decreases a.len(),
{
    if a.len() > 0 && a.len() == b.len() && b.len() == c.len() {
        lemma_cells_eq_transitive(a.drop_last(), b.drop_last(), c.drop_last());
        lemma_inlines_eq_transitive(a.last().content@, b.last().content@, c.last().content@);
    }
}

pub proof fn lemma_rows_eq_transitive(a: Seq<Vec<TableCell>>, b: Seq<Vec<TableCell>>, c: Seq<Vec<TableCell>>)
    ensures
        rows_eq_spec(a, b) && rows_eq_spec(b, c) ==> rows_eq_spec(a, c),
    decreases a.len(),
{
    if a.len() > 0 && a.len() == b.len() && b.len() == c.len() {
        lemma_rows_eq_transitive(a.drop_last(), b.drop_last(), c.drop_last());
        lemma_cells_eq_transitive(a.last()@, b.last()@, c.last()@);
    }
}

pub proof fn lemma_blocks_eq_transitive(a: Seq<Block>, b: Seq<Block>, c: Seq<Block>)
    ensures
        blocks_eq_spec(a, b) && blocks_eq_spec(b, c) ==> blocks_eq_spec(a, c),
    decreases a,
{
    if a.len() > 0 && a.len() == b.len() && b.len() == c.len() {
        lemma_blocks_eq_transitive(a.drop_last(), b.drop_last(), c.drop_last());
        lemma_block_eq_transitive(a.last(), b.last(), c.last());
    }
}

pub proof fn lemma_items_eq_transitive(a: Seq<ListItem>, b: Seq<ListItem>, c: Seq<ListItem>)
    ensures
        items_eq_spec(a, b) && items_eq_spec(b, c) ==> items_eq_spec(a, c),
    decreases a,
{
    if a.len() > 0 && a.len() == b.len() && b.len() == c.len() {
        lemma_items_eq_transitive(a.drop_last(), b.drop_last(), c.drop_last());
        lemma_blocks_eq_transitive(a.last().content@, b.last().content@, c.last().content@);
    }
}

pub proof fn lemma_definitions_eq_transitive(a: Seq<Vec<Block>>, b: Seq<Vec<Block>>, c: Seq<Vec<Block>>)
    ensures
        definitions_eq_spec(a, b) && definitions_eq_spec(b, c) ==> definitions_eq_spec(a, c),
    decreases a,
{
    if a.len() > 0 && a.len() == b.len() && b.len() == c.len() {
        lemma_definitions_eq_transitive(a.drop_last(), b.drop_last(), c.drop_last());
        lemma_blocks_eq_transitive(a.last()@, b.last()@, c.last()@);
    }
}

pub proof fn lemma_descriptions_eq_transitive(a: Seq<DescriptionItem>, b: Seq<DescriptionItem>, c: Seq<DescriptionItem>)
    ensures
        descriptions_eq_spec(a, b) && descriptions_eq_spec(b, c) ==> descriptions_eq_spec(a, c),
    decreases a,
{
    if a.len() > 0 && a.len() == b.len() && b.len() == c.len() {
        lemma_descriptions_eq_transitive(a.drop_last(), b.drop_last(), c.drop_last());
        lemma_inlines_eq_transitive(a.last().term@, b.last().term@, c.last().term@);
        lemma_definitions_eq_transitive(a.last().definitions@, b.last().definitions@, c.last().definitions@);
    }
}

pub proof fn lemma_block_eq_transitive(a: Block, b: Block, c: Block)
    ensures
        block_eq_spec(a, b) && block_eq_spec(b, c) ==> block_eq_spec(a, c),
    decreases a,
{
    match (a, b, c) {
        (Block::Heading { content: x, .. }, Block::Heading { content: y, .. }, Block::Heading { content: z, .. }) => lemma_inlines_eq_transitive(x@, y@, z@),
        (Block::Paragraph { content: x }, Block::Paragraph { content: y }, Block::Paragraph { content: z }) => lemma_inlines_eq_transitive(x@, y@, z@),
        (Block::BlockQuote { children: x }, Block::BlockQuote { children: y }, Block::BlockQuote { children: z }) => lemma_blocks_eq_transitive(x@, y@, z@),
        (Block::UnorderedList { items: x }, Block::UnorderedList { items: y }, Block::UnorderedList { items: z }) => lemma_items_eq_transitive(x@, y@, z@),
        (Block::OrderedList { items: x, .. }, Block::OrderedList { items: y, .. }, Block::OrderedList { items: z, .. }) => lemma_items_eq_transitive(x@, y@, z@),
        (Block::DescriptionList { items: x }, Block::DescriptionList { items: y }, Block::DescriptionList { items: z }) => lemma_descriptions_eq_transitive(x@, y@, z@),
        (
            Block::Table { headers: h1, rows: r1, .. },
            Block::Table { headers: h2, rows: r2, .. },
            Block::Table { headers: h3, rows: r3, .. },
        ) => {
            lemma_cells_eq_transitive(h1@, h2@, h3@);
            lemma_rows_eq_transitive(r1@, r2@, r3@);
        },
        _ => {},
    }
}

/// Two documents equal to a third are equal to each other.
pub proof fn law_document_equality_is_transitive(a: Document, b: Document, c: Document)
    ensures
        documents_equal_spec(&a, &b) && documents_equal_spec(&b, &c) ==> documents_equal_spec(&a, &c),
{
    lemma_blocks_eq_transitive(a.children@, b.children@, c.children@);
}

proof fn lemma_inlines_model_len(a: Seq<Inline>)
    ensures
        inlines_model(a).len() == a.len(),
    decreases a.len(),
{
    if a.len() > 0 {
        lemma_inlines_model_len(a.drop_last());
    }
}

proof fn lemma_cells_model_len(a: Seq<TableCell>)
    ensures
        cells_model(a).len() == a.len(),
    decreases a.len(),
{
    if a.len() > 0 {
        lemma_cells_model_len(a.drop_last());
    }
}

proof fn lemma_rows_model_len(a: Seq<Vec<TableCell>>)
    ensures
        rows_model(a).len() == a.len(),
    decreases a.len(),
{
    if a.len() > 0 {
        lemma_rows_model_len(a.drop_last());
    }
}

proof fn lemma_blocks_model_len(a: Seq<Block>)
    ensures
        blocks_model(a).len() == a.len(),
    decreases a.len(),
{
    if a.len() > 0 {
        lemma_blocks_model_len(a.drop_last());
    }
}

proof fn lemma_items_model_len(a: Seq<ListItem>)
    ensures
        items_model(a).len() == a.len(),
    decreases a.len(),
{
    if a.len() > 0 {
        lemma_items_model_len(a.drop_last());
    }
}

proof fn lemma_definitions_model_len(a: Seq<Vec<Block>>)
    ensures
        definitions_model(a).len() == a.len(),
    decreases a.len(),
{
    if a.len() > 0 {
        lemma_definitions_model_len(a.drop_last());
    }
}

proof fn lemma_descriptions_model_len(a: Seq<DescriptionItem>)
    ensures
        descriptions_model(a).len() == a.len(),
    decreases a.len(),
{
    if a.len() > 0 {
        lemma_descriptions_model_len(a.drop_last());
    }
}

proof fn lemma_opt_string_eq_model(a: Option<String>, b: Option<String>)
    ensures
        opt_string_eq(a, b) <==> opt_string(a) == opt_string(b),
{
}

proof fn lemma_inlines_eq_model(a: Seq<Inline>, b: Seq<Inline>)
    ensures
        inlines_eq_spec(a, b) <==> inlines_model(a) == inlines_model(b),
    decreases a,
{
    lemma_inlines_model_len(a);
    lemma_inlines_model_len(b);
    if a.len() > 0 {
        lemma_inlines_eq_model(a.drop_last(), b.drop_last());
        lemma_inline_eq_model(a.last(), b.last());
        if b.len() > 0 {
            if inlines_model(a) == inlines_model(b) {
                assert(inlines_model(a).drop_last() == inlines_model(b).drop_last());
                assert(inlines_model(a).drop_last() =~= inlines_model(a.drop_last()));
                assert(inlines_model(b).drop_last() =~= inlines_model(b.drop_last()));
                assert(inlines_model(a).last() == inlines_model(b).last());
            }
        } else {
            assert(inlines_model(b) =~= Seq::<InlineModel>::empty());
            assert(inlines_model(a).len() > 0);
        }
    } else if b.len() > 0 {
        assert(inlines_model(b).len() > 0);
    }
}

proof fn lemma_inline_eq_model(a: Inline, b: Inline)
    ensures
        inline_eq_spec(a, b) <==> inline_model(a) == inline_model(b),
    decreases a,
{
    match (a, b) {
        (Inline::Bold(x), Inline::Bold(y)) => lemma_inlines_eq_model(x@, y@),
        (Inline::Italic(x), Inline::Italic(y)) => lemma_inlines_eq_model(x@, y@),
        (Inline::BoldItalic(x), Inline::BoldItalic(y)) => lemma_inlines_eq_model(x@, y@),
        (Inline::Strikethrough(x), Inline::Strikethrough(y)) => lemma_inlines_eq_model(x@, y@),
        (Inline::Superscript(x), Inline::Superscript(y)) => lemma_inlines_eq_model(x@, y@),
        (Inline::Subscript(x), Inline::Subscript(y)) => lemma_inlines_eq_model(x@, y@),
        (Inline::Link { text: t1, title: s1, .. }, Inline::Link { text: t2, title: s2, .. }) => {
            lemma_inlines_eq_model(t1@, t2@);
            lemma_opt_string_eq_model(s1, s2);
        },
        (Inline::Image { alt: a1, title: s1, link: l1, .. }, Inline::Image { alt: a2, title: s2, link: l2, .. }) => {
            lemma_inlines_eq_model(a1@, a2@);
            lemma_opt_string_eq_model(s1, s2);
            lemma_opt_string_eq_model(l1, l2);
        },
        (Inline::RawInline { format: f1, .. }, Inline::RawInline { format: f2, .. }) => {
            lemma_opt_string_eq_model(f1, f2);
        },
        _ => {},
    }
}

proof fn lemma_cells_eq_model(a: Seq<TableCell>, b: Seq<TableCell>)
    ensures
        cells_eq_spec(a, b) <==> cells_model(a) == cells_model(b),
    decreases a.len(),
{
    lemma_cells_model_len(a);
    lemma_cells_model_len(b);
    if a.len() > 0 {
        lemma_cells_eq_model(a.drop_last(), b.drop_last());
        lemma_inlines_eq_model(a.last().content@, b.last().content@);
        if b.len() > 0 {
            if cells_model(a) == cells_model(b) {
                assert(cells_model(a).drop_last() =~= cells_model(a.drop_last()));
                assert(cells_model(b).drop_last() =~= cells_model(b.drop_last()));
                assert(cells_model(a).last() == cells_model(b).last());
            }
        } else {
            assert(cells_model(a).len() > 0);
        }
    } else if b.len() > 0 {
        assert(cells_model(b).len() > 0);
    }
}

proof fn lemma_rows_eq_model(a: Seq<Vec<TableCell>>, b: Seq<Vec<TableCell>>)
    ensures
        rows_eq_spec(a, b) <==> rows_model(a) == rows_model(b),
    decreases a.len(),
{
    lemma_rows_model_len(a);
    lemma_rows_model_len(b);
    if a.len() > 0 {
        lemma_rows_eq_model(a.drop_last(), b.drop_last());
        lemma_cells_eq_model(a.last()@, b.last()@);
        if b.len() > 0 {
            if rows_model(a) == rows_model(b) {
                assert(rows_model(a).drop_last() =~= rows_model(a.drop_last()));
                assert(rows_model(b).drop_last() =~= rows_model(b.drop_last()));
                assert(rows_model(a).last() == rows_model(b).last());
            }
        } else {
            assert(rows_model(a).len() > 0);
        }
    } else if b.len() > 0 {
        assert(rows_model(b).len() > 0);
    }
}

proof fn lemma_blocks_eq_model(a: Seq<Block>, b: Seq<Block>)
    ensures
        blocks_eq_spec(a, b) <==> blocks_model(a) == blocks_model(b),
    decreases a,
{
    lemma_blocks_model_len(a);
    lemma_blocks_model_len(b);
    if a.len() > 0 {
        lemma_blocks_eq_model(a.drop_last(), b.drop_last());
        lemma_block_eq_model(a.last(), b.last());
        if b.len() > 0 {
            if blocks_model(a) == blocks_model(b) {
                assert(blocks_model(a).drop_last() =~= blocks_model(a.drop_last()));
                assert(blocks_model(b).drop_last() =~= blocks_model(b.drop_last()));
                assert(blocks_model(a).last() == blocks_model(b).last());
            }
        } else {
            assert(blocks_model(a).len() > 0);
        }
    } else if b.len() > 0 {
        assert(blocks_model(b).len() > 0);
    }
}

proof fn lemma_items_eq_model(a: Seq<ListItem>, b: Seq<ListItem>)
    ensures
        items_eq_spec(a, b) <==> items_model(a) == items_model(b),
    decreases a,
{
    lemma_items_model_len(a);
    lemma_items_model_len(b);
    if a.len() > 0 {
        lemma_items_eq_model(a.drop_last(), b.drop_last());
        lemma_blocks_eq_model(a.last().content@, b.last().content@);
        if b.len() > 0 {
            if items_model(a) == items_model(b) {
                assert(items_model(a).drop_last() =~= items_model(a.drop_last()));
                assert(items_model(b).drop_last() =~= items_model(b.drop_last()));
                assert(items_model(a).last() == items_model(b).last());
            }
        } else {
            assert(items_model(a).len() > 0);
        }
    } else if b.len() > 0 {
        assert(items_model(b).len() > 0);
    }
}

proof fn lemma_definitions_eq_model(a: Seq<Vec<Block>>, b: Seq<Vec<Block>>)
    ensures
        definitions_eq_spec(a, b) <==> definitions_model(a) == definitions_model(b),
    decreases a,
{
    lemma_definitions_model_len(a);
    lemma_definitions_model_len(b);
    if a.len() > 0 {
        lemma_definitions_eq_model(a.drop_last(), b.drop_last());
        lemma_blocks_eq_model(a.last()@, b.last()@);
        if b.len() > 0 {
            if definitions_model(a) == definitions_model(b) {
                assert(definitions_model(a).drop_last() =~= definitions_model(a.drop_last()));
                assert(definitions_model(b).drop_last() =~= definitions_model(b.drop_last()));
                assert(definitions_model(a).last() == definitions_model(b).last());
            }
        } else {
            assert(definitions_model(a).len() > 0);
        }
    } else if b.len() > 0 {
        assert(definitions_model(b).len() > 0);
    }
}

proof fn lemma_descriptions_eq_model(a: Seq<DescriptionItem>, b: Seq<DescriptionItem>)
    ensures
        descriptions_eq_spec(a, b) <==> descriptions_model(a) == descriptions_model(b),
    decreases a,
{
    lemma_descriptions_model_len(a);
    lemma_descriptions_model_len(b);
    if a.len() > 0 {
        lemma_descriptions_eq_model(a.drop_last(), b.drop_last());
        lemma_inlines_eq_model(a.last().term@, b.last().term@);
        lemma_definitions_eq_model(a.last().definitions@, b.last().definitions@);
        if b.len() > 0 {
            if descriptions_model(a) == descriptions_model(b) {
                assert(descriptions_model(a).drop_last() =~= descriptions_model(a.drop_last()));
                assert(descriptions_model(b).drop_last() =~= descriptions_model(b.drop_last()));
                assert(descriptions_model(a).last() == descriptions_model(b).last());
            }
        } else {
            assert(descriptions_model(a).len() > 0);
        }
    } else if b.len() > 0 {
        assert(descriptions_model(b).len() > 0);
    }
}

proof fn lemma_block_eq_model(a: Block, b: Block)
    ensures
        block_eq_spec(a, b) <==> block_model(a) == block_model(b),
    decreases a,
{
    match (a, b) {
        (Block::Heading { content: x, .. }, Block::Heading { content: y, .. }) => lemma_inlines_eq_model(x@, y@),
        (Block::Paragraph { content: x }, Block::Paragraph { content: y }) => lemma_inlines_eq_model(x@, y@),
        (Block::CodeBlock { language: l1, .. }, Block::CodeBlock { language: l2, .. }) => lemma_opt_string_eq_model(l1, l2),
        (Block::BlockQuote { children: x }, Block::BlockQuote { children: y }) => lemma_blocks_eq_model(x@, y@),
        (Block::UnorderedList { items: x }, Block::UnorderedList { items: y }) => lemma_items_eq_model(x@, y@),
        (Block::OrderedList { items: x, .. }, Block::OrderedList { items: y, .. }) => lemma_items_eq_model(x@, y@),
        (Block::DescriptionList { items: x }, Block::DescriptionList { items: y }) => lemma_descriptions_eq_model(x@, y@),
        (Block::Table { headers: h1, rows: r1, .. }, Block::Table { headers: h2, rows: r2, .. }) => {
            lemma_cells_eq_model(h1@, h2@);
            lemma_rows_eq_model(r1@, r2@);
        },
        (Block::RawBlock { format: f1, .. }, Block::RawBlock { format: f2, .. }) => lemma_opt_string_eq_model(f1, f2),
        _ => {},
    }
}

/// Two documents are equal exactly when they hold the same value: the same
/// blocks in the same order, each of the same kind with the same fields —
/// heading levels, list start numbers, code languages, cell spans and
/// alignments, and every text — all the way down.
pub proof fn law_documents_equal_iff_same_value(a: Document, b: Document)
    ensures
        documents_equal_spec(&a, &b) <==> blocks_model(a.children@) == blocks_model(b.children@),
{
    lemma_blocks_eq_model(a.children@, b.children@);
}

/// Headings of different levels are different documents, whatever they say.
pub proof fn law_heading_level_matters(a: Document, b: Document)
    requires
        a.children@.len() == 1,
        b.children@.len() == 1,
        a.children@[0] matches Block::Heading { level: la, .. },
        b.children@[0] matches Block::Heading { level: lb, .. },
        a.children@[0]->level != b.children@[0]->level,
    ensures
        !documents_equal_spec(&a, &b),
{
    law_documents_equal_iff_same_value(a, b);
    assert(a.children@.drop_last() =~= Seq::<Block>::empty());
    assert(b.children@.drop_last() =~= Seq::<Block>::empty());
    assert(blocks_model(a.children@.drop_last()) == Seq::<BlockModel>::empty());
    assert(blocks_model(b.children@.drop_last()) == Seq::<BlockModel>::empty());
    assert(blocks_model(a.children@)[0] == block_model(a.children@[0]));
    assert(blocks_model(b.children@)[0] == block_model(b.children@[0]));
}

} // verus!
