//! What a conversion keeps: the written text is read back in its format and
//! compared with the document it came from, feature by feature.
use vstd::prelude::*;

use crate::ast::{Block, ColumnAlignment, DescriptionItem, Document, Inline, ListItem, TableCell};
use crate::equality::{law_document_equality_is_symmetric, documents_equal, documents_equal_spec, law_document_equals_itself};
use crate::format::Format;
use crate::text::{chars_of_string};

verus! {

#[derive(Debug, Clone, Copy, PartialEq, Eq, Structural)]
pub enum PreservationStatus {
    Preserved,
    Changed,
    Unverifiable,
}

/// One feature whose count differs between the document and its reading back.
#[derive(Debug, PartialEq, Eq)]
pub struct FeatureChange {
    pub feature: &'static str,
    pub before: usize,
    pub after: usize,
}

#[derive(Debug, PartialEq, Eq)]
pub struct PreservationReport {
    pub status: PreservationStatus,
    pub changes: Vec<FeatureChange>,
}

/// The number of features counted.
pub const FEATURE_COUNT: usize = 48;

pub const ALIGNMENT_CENTER: usize = 0;
pub const ALIGNMENT_DEFAULT: usize = 1;
pub const ALIGNMENT_LEFT: usize = 2;
pub const ALIGNMENT_RIGHT: usize = 3;
pub const BLOCK_NODES: usize = 4;
pub const BLOCK_QUOTES: usize = 5;
pub const BOLD: usize = 6;
pub const BOLD_ITALIC: usize = 7;
pub const CODE_BLOCKS: usize = 8;
pub const CODE_LANGUAGES: usize = 9;
pub const COLUMN_SPAN_WIDTH: usize = 10;
pub const COLUMN_SPANS: usize = 11;
pub const DEFINITIONS: usize = 12;
pub const DESCRIPTION_ITEMS: usize = 13;
pub const DESCRIPTION_LISTS: usize = 14;
pub const HARD_BREAKS: usize = 15;
pub const HEADINGS: usize = 16;
pub const HORIZONTAL_RULES: usize = 17;
pub const IMAGE_TITLES: usize = 18;
pub const IMAGES: usize = 19;
pub const INLINE_CODE: usize = 20;
pub const INLINE_CODE_CHARACTERS: usize = 21;
pub const INLINE_NODES: usize = 22;
pub const ITALIC: usize = 23;
pub const LINK_TITLES: usize = 24;
pub const LINKED_IMAGES: usize = 25;
pub const LINKS: usize = 26;
pub const LIST_ITEMS: usize = 27;
pub const MAXIMUM_BLOCK_DEPTH: usize = 28;
pub const NONDEFAULT_ORDERED_STARTS: usize = 29;
pub const ORDERED_LISTS: usize = 30;
pub const ORDERED_START_TOTAL: usize = 31;
pub const PARAGRAPHS: usize = 32;
pub const RAW_BLOCK_FORMATS: usize = 33;
pub const RAW_BLOCKS: usize = 34;
pub const RAW_INLINE_FORMATS: usize = 35;
pub const RAW_INLINES: usize = 36;
pub const ROW_SPAN_HEIGHT: usize = 37;
pub const ROW_SPANS: usize = 38;
pub const SOFT_BREAKS: usize = 39;
pub const STRIKETHROUGH: usize = 40;
pub const SUBSCRIPT: usize = 41;
pub const SUPERSCRIPT: usize = 42;
pub const TABLE_CELLS: usize = 43;
pub const TABLE_ROWS: usize = 44;
pub const TABLES: usize = 45;
pub const TEXT_CHARACTERS: usize = 46;
pub const UNORDERED_LISTS: usize = 47;

/// The name of feature `k`; the features are numbered in the byte order of
/// their names.
pub open spec fn feature_name_spec(k: int) -> Seq<char> {
    if k == 0 {
        "alignment_center"@
    } else if k == 1 {
        "alignment_default"@
    } else if k == 2 {
        "alignment_left"@
    } else if k == 3 {
        "alignment_right"@
    } else if k == 4 {
        "block_nodes"@
    } else if k == 5 {
        "block_quotes"@
    } else if k == 6 {
        "bold"@
    } else if k == 7 {
        "bold_italic"@
    } else if k == 8 {
        "code_blocks"@
    } else if k == 9 {
        "code_languages"@
    } else if k == 10 {
        "column_span_width"@
    } else if k == 11 {
        "column_spans"@
    } else if k == 12 {
        "definitions"@
    } else if k == 13 {
        "description_items"@
    } else if k == 14 {
        "description_lists"@
    } else if k == 15 {
        "hard_breaks"@
    } else if k == 16 {
        "headings"@
    } else if k == 17 {
        "horizontal_rules"@
    } else if k == 18 {
        "image_titles"@
    } else if k == 19 {
        "images"@
    } else if k == 20 {
        "inline_code"@
    } else if k == 21 {
        "inline_code_characters"@
    } else if k == 22 {
        "inline_nodes"@
    } else if k == 23 {
        "italic"@
    } else if k == 24 {
        "link_titles"@
    } else if k == 25 {
        "linked_images"@
    } else if k == 26 {
        "links"@
    } else if k == 27 {
        "list_items"@
    } else if k == 28 {
        "maximum_block_depth"@
    } else if k == 29 {
        "nondefault_ordered_starts"@
    } else if k == 30 {
        "ordered_lists"@
    } else if k == 31 {
        "ordered_start_total"@
    } else if k == 32 {
        "paragraphs"@
    } else if k == 33 {
        "raw_block_formats"@
    } else if k == 34 {
        "raw_blocks"@
    } else if k == 35 {
        "raw_inline_formats"@
    } else if k == 36 {
        "raw_inlines"@
    } else if k == 37 {
        "row_span_height"@
    } else if k == 38 {
        "row_spans"@
    } else if k == 39 {
        "soft_breaks"@
    } else if k == 40 {
        "strikethrough"@
    } else if k == 41 {
        "subscript"@
    } else if k == 42 {
        "superscript"@
    } else if k == 43 {
        "table_cells"@
    } else if k == 44 {
        "table_rows"@
    } else if k == 45 {
        "tables"@
    } else if k == 46 {
        "text_characters"@
    } else {
        "unordered_lists"@
    }
}

/// The name of feature `k`.
pub fn feature_name(k: usize) -> (r: &'static str)
    ensures
        r@ == feature_name_spec(k as int),
{
    if k == 0 {
        "alignment_center"
    } else if k == 1 {
        "alignment_default"
    } else if k == 2 {
        "alignment_left"
    } else if k == 3 {
        "alignment_right"
    } else if k == 4 {
        "block_nodes"
    } else if k == 5 {
        "block_quotes"
    } else if k == 6 {
        "bold"
    } else if k == 7 {
        "bold_italic"
    } else if k == 8 {
        "code_blocks"
    } else if k == 9 {
        "code_languages"
    } else if k == 10 {
        "column_span_width"
    } else if k == 11 {
        "column_spans"
    } else if k == 12 {
        "definitions"
    } else if k == 13 {
        "description_items"
    } else if k == 14 {
        "description_lists"
    } else if k == 15 {
        "hard_breaks"
    } else if k == 16 {
        "headings"
    } else if k == 17 {
        "horizontal_rules"
    } else if k == 18 {
        "image_titles"
    } else if k == 19 {
        "images"
    } else if k == 20 {
        "inline_code"
    } else if k == 21 {
        "inline_code_characters"
    } else if k == 22 {
        "inline_nodes"
    } else if k == 23 {
        "italic"
    } else if k == 24 {
        "link_titles"
    } else if k == 25 {
        "linked_images"
    } else if k == 26 {
        "links"
    } else if k == 27 {
        "list_items"
    } else if k == 28 {
        "maximum_block_depth"
    } else if k == 29 {
        "nondefault_ordered_starts"
    } else if k == 30 {
        "ordered_lists"
    } else if k == 31 {
        "ordered_start_total"
    } else if k == 32 {
        "paragraphs"
    } else if k == 33 {
        "raw_block_formats"
    } else if k == 34 {
        "raw_blocks"
    } else if k == 35 {
        "raw_inline_formats"
    } else if k == 36 {
        "raw_inlines"
    } else if k == 37 {
        "row_span_height"
    } else if k == 38 {
        "row_spans"
    } else if k == 39 {
        "soft_breaks"
    } else if k == 40 {
        "strikethrough"
    } else if k == 41 {
        "subscript"
    } else if k == 42 {
        "superscript"
    } else if k == 43 {
        "table_cells"
    } else if k == 44 {
        "table_rows"
    } else if k == 45 {
        "tables"
    } else if k == 46 {
        "text_characters"
    } else {
        "unordered_lists"
    }
}

// ---------------------------------------------------------------------------
// What a document holds, feature by feature
// ---------------------------------------------------------------------------

/// A count held in a `usize`: it stops at `usize::MAX`.
pub open spec fn sat(x: int) -> int {
    if x > usize::MAX {
        usize::MAX as int
    } else {
        x
    }
}

/// One for feature `f`, nothing for the others.
pub open spec fn one(k: int, f: usize) -> nat {
    if k == f {
        1
    } else {
        0
    }
}

/// `n` for feature `f`, nothing for the others.
pub open spec fn amount(k: int, f: usize, n: nat) -> nat {
    if k == f {
        n
    } else {
        0
    }
}

/// One for feature `f` when `present`.
pub open spec fn one_if(present: bool, k: int, f: usize) -> nat {
    if present {
        one(k, f)
    } else {
        0
    }
}

/// What one inline node, with the nodes inside it, adds to feature `k`.
pub open spec fn inline_total(x: Inline, k: int) -> nat
    decreases x,
{
    one(k, INLINE_NODES) + match x {
        Inline::Text(t) => amount(k, TEXT_CHARACTERS, t@.len()),
        Inline::Bold(c) => one(k, BOLD) + inlines_total(c@, k),
        Inline::Italic(c) => one(k, ITALIC) + inlines_total(c@, k),
        Inline::BoldItalic(c) => one(k, BOLD_ITALIC) + inlines_total(c@, k),
        Inline::Strikethrough(c) => one(k, STRIKETHROUGH) + inlines_total(c@, k),
        Inline::Superscript(c) => one(k, SUPERSCRIPT) + inlines_total(c@, k),
        Inline::Subscript(c) => one(k, SUBSCRIPT) + inlines_total(c@, k),
        Inline::InlineCode(c) => one(k, INLINE_CODE) + amount(k, INLINE_CODE_CHARACTERS, c@.len()),
        Inline::Link { text, title, .. } => one(k, LINKS) + one_if(title is Some, k, LINK_TITLES)
            + inlines_total(text@, k),
        Inline::Image { alt, title, link, .. } => one(k, IMAGES) + one_if(
            title is Some,
            k,
            IMAGE_TITLES,
        ) + one_if(link is Some, k, LINKED_IMAGES) + inlines_total(alt@, k),
        Inline::HardLineBreak => one(k, HARD_BREAKS),
        Inline::SoftLineBreak => one(k, SOFT_BREAKS),
        Inline::RawInline { format, .. } => one(k, RAW_INLINES) + one_if(
            format is Some,
            k,
            RAW_INLINE_FORMATS,
        ),
    }
}

pub open spec fn inlines_total(s: Seq<Inline>, k: int) -> nat
    decreases s,
{
    if s.len() == 0 {
        0
    } else {
        inlines_total(s.drop_last(), k) + inline_total(s.last(), k)
    }
}

/// What one table cell adds to feature `k`.
pub open spec fn cell_total(c: TableCell, k: int) -> nat {
    one(k, TABLE_CELLS) + (if c.colspan > 1 {
        one(k, COLUMN_SPANS) + amount(k, COLUMN_SPAN_WIDTH, c.colspan as nat)
    } else {
        0
    }) + (if c.rowspan > 1 {
        one(k, ROW_SPANS) + amount(k, ROW_SPAN_HEIGHT, c.rowspan as nat)
    } else {
        0
    }) + inlines_total(c.content@, k)
}

pub open spec fn cells_total(s: Seq<TableCell>, k: int) -> nat
    decreases s.len(),
{
    if s.len() == 0 {
        0
    } else {
        cells_total(s.drop_last(), k) + cell_total(s.last(), k)
    }
}

pub open spec fn rows_total(s: Seq<Vec<TableCell>>, k: int) -> nat
    decreases s.len(),
{
    if s.len() == 0 {
        0
    } else {
        rows_total(s.drop_last(), k) + cells_total(s.last()@, k)
    }
}

/// The feature that counts columns with alignment `a`.
pub open spec fn alignment_feature(a: ColumnAlignment) -> usize {
    match a {
        ColumnAlignment::Left => ALIGNMENT_LEFT,
        ColumnAlignment::Center => ALIGNMENT_CENTER,
        ColumnAlignment::Right => ALIGNMENT_RIGHT,
        ColumnAlignment::Default => ALIGNMENT_DEFAULT,
    }
}

pub open spec fn alignments_total(s: Seq<ColumnAlignment>, k: int) -> nat
    decreases s.len(),
{
    if s.len() == 0 {
        0
    } else {
        alignments_total(s.drop_last(), k) + one(k, alignment_feature(s.last()))
    }
}

/// What one block, with everything inside it, adds to feature `k`.
pub open spec fn block_total(b: Block, k: int) -> nat
    decreases b,
{
    one(k, BLOCK_NODES) + match b {
        Block::Heading { content, .. } => one(k, HEADINGS) + inlines_total(content@, k),
        Block::Paragraph { content } => one(k, PARAGRAPHS) + inlines_total(content@, k),
        Block::CodeBlock { language, .. } => one(k, CODE_BLOCKS) + one_if(
            language is Some,
            k,
            CODE_LANGUAGES,
        ),
        Block::BlockQuote { children } => one(k, BLOCK_QUOTES) + blocks_total(children@, k),
        Block::UnorderedList { items } => one(k, UNORDERED_LISTS) + amount(
            k,
            LIST_ITEMS,
            items@.len(),
        ) + items_total(items@, k),
        Block::OrderedList { start, items } => one(k, ORDERED_LISTS) + amount(
            k,
            ORDERED_START_TOTAL,
            start as nat,
        ) + one_if(start != 1, k, NONDEFAULT_ORDERED_STARTS) + amount(k, LIST_ITEMS, items@.len())
            + items_total(items@, k),
        Block::DescriptionList { items } => one(k, DESCRIPTION_LISTS) + amount(
            k,
            DESCRIPTION_ITEMS,
            items@.len(),
        ) + descriptions_total(items@, k),
        Block::Table { headers, alignments, rows } => one(k, TABLES) + amount(
            k,
            TABLE_ROWS,
            rows@.len() + 1,
        ) + alignments_total(alignments@, k) + cells_total(headers@, k) + rows_total(rows@, k),
        Block::HorizontalRule => one(k, HORIZONTAL_RULES),
        Block::RawBlock { format, .. } => one(k, RAW_BLOCKS) + one_if(
            format is Some,
            k,
            RAW_BLOCK_FORMATS,
        ),
    }
}

pub open spec fn blocks_total(s: Seq<Block>, k: int) -> nat
    decreases s,
{
    if s.len() == 0 {
        0
    } else {
        blocks_total(s.drop_last(), k) + block_total(s.last(), k)
    }
}

pub open spec fn items_total(s: Seq<ListItem>, k: int) -> nat
    decreases s,
{
    if s.len() == 0 {
        0
    } else {
        items_total(s.drop_last(), k) + blocks_total(s.last().content@, k)
    }
}

pub open spec fn definitions_total(s: Seq<Vec<Block>>, k: int) -> nat
    decreases s,
{
    if s.len() == 0 {
        0
    } else {
        definitions_total(s.drop_last(), k) + blocks_total(s.last()@, k)
    }
}

pub open spec fn descriptions_total(s: Seq<DescriptionItem>, k: int) -> nat
    decreases s,
{
    if s.len() == 0 {
        0
    } else {
        descriptions_total(s.drop_last(), k) + amount(k, DEFINITIONS, s.last().definitions@.len())
            + inlines_total(s.last().term@, k) + definitions_total(s.last().definitions@, k)
    }
}

pub open spec fn max(a: int, b: int) -> int {
    if a >= b {
        a
    } else {
        b
    }
}

/// The depth of the blocks nested one level below blocks at depth `d`.
pub open spec fn deeper(d: int) -> int {
    if d < usize::MAX {
        d + 1
    } else {
        d
    }
}

/// The greatest depth reached by blocks `s` at depth `d` and the blocks
/// nested in them (the outermost blocks are at depth 1).
pub open spec fn blocks_depth(s: Seq<Block>, d: int) -> int
    decreases s, 1nat,
{
    max(d, nested_depth(s, deeper(d)))
}

/// The greatest depth reached by the blocks nested in `s`, one level down
/// being at depth `dd`; 0 where nothing is nested.
pub open spec fn nested_depth(s: Seq<Block>, dd: int) -> int
    decreases s, 0nat,
{
    if s.len() == 0 {
        0
    } else {
        max(nested_depth(s.drop_last(), dd), block_depth(s.last(), dd))
    }
}

pub open spec fn block_depth(b: Block, dd: int) -> int
    decreases b, 0nat,
{
    match b {
        Block::BlockQuote { children } => blocks_depth(children@, dd),
        Block::UnorderedList { items } => items_depth(items@, dd),
        Block::OrderedList { items, .. } => items_depth(items@, dd),
        Block::DescriptionList { items } => descriptions_depth(items@, dd),
        _ => 0,
    }
}

pub open spec fn items_depth(s: Seq<ListItem>, dd: int) -> int
    decreases s, 0nat,
{
    if s.len() == 0 {
        0
    } else {
        max(items_depth(s.drop_last(), dd), blocks_depth(s.last().content@, dd))
    }
}

pub open spec fn definitions_depth(s: Seq<Vec<Block>>, dd: int) -> int
    decreases s, 0nat,
{
    if s.len() == 0 {
        0
    } else {
        max(definitions_depth(s.drop_last(), dd), blocks_depth(s.last()@, dd))
    }
}

pub open spec fn descriptions_depth(s: Seq<DescriptionItem>, dd: int) -> int
    decreases s, 0nat,
{
    if s.len() == 0 {
        0
    } else {
        max(descriptions_depth(s.drop_last(), dd), definitions_depth(s.last().definitions@, dd))
    }
}

/// The count of feature `k` in `doc`: the greatest block depth for
/// `maximum_block_depth`, a total (held in a `usize`) for every other feature.
pub open spec fn feature_count(doc: Document, k: int) -> int {
    if k == MAXIMUM_BLOCK_DEPTH {
        blocks_depth(doc.children@, 1)
    } else {
        sat(blocks_total(doc.children@, k) as int)
    }
}

/// Every count of `after` is that of `before` with `total(k)` added.
pub open spec fn tallied(before: Seq<usize>, after: Seq<usize>, total: spec_fn(int) -> nat) -> bool {
    forall|k: int|
        0 <= k < FEATURE_COUNT && k != MAXIMUM_BLOCK_DEPTH ==> #[trigger] after[k] == sat(
            before[k] + total(k),
        )
}

// ---------------------------------------------------------------------------
// Counting
// ---------------------------------------------------------------------------

/// Per-feature counts of a document; `counts[MAXIMUM_BLOCK_DEPTH]` is the
/// greatest block depth met so far.
pub struct Inventory {
    pub counts: Vec<usize>,
    pub max_depth: usize,
}

impl Inventory {
    pub open spec fn wf(&self) -> bool {
        &&& self.counts@.len() == FEATURE_COUNT
        &&& self.counts@[MAXIMUM_BLOCK_DEPTH as int] == self.max_depth
    }

    /// An inventory with every count zero.
    pub fn new() -> (inv: Inventory)
        ensures
            inv.wf(),
            inv.max_depth == 0,
            forall|k: int| 0 <= k < FEATURE_COUNT ==> inv.counts@[k] == 0,
    {
        let mut counts: Vec<usize> = Vec::new();
        let mut k: usize = 0;
        while k < FEATURE_COUNT
            invariant
                k <= FEATURE_COUNT,
                counts@.len() == k,
                forall|j: int| 0 <= j < k ==> counts@[j] == 0,
            decreases FEATURE_COUNT - k,
        {
            counts.push(0);
            k += 1;
        }
        Inventory { counts, max_depth: 0 }
    }

    /// Adds `n` to feature `k`, stopping at `usize::MAX`.
    pub fn add(&mut self, k: usize, n: usize)
        requires
            old(self).wf(),
            k < FEATURE_COUNT,
            k != MAXIMUM_BLOCK_DEPTH,
        ensures
            final(self).wf(),
            final(self).max_depth == old(self).max_depth,
            tallied(old(self).counts@, final(self).counts@, |j: int| amount(j, k, n as nat)),
    {
        let c = self.counts[k];
        let v = if c <= usize::MAX - n {
            c + n
        } else {
            usize::MAX
        };
        self.counts.set(k, v);
    }

    /// Adds one to feature `k`, stopping at `usize::MAX`.
    pub(crate) fn increment(&mut self, k: usize)
        requires
            old(self).wf(),
            k < FEATURE_COUNT,
            k != MAXIMUM_BLOCK_DEPTH,
        ensures
            final(self).wf(),
            final(self).max_depth == old(self).max_depth,
            tallied(old(self).counts@, final(self).counts@, |j: int| one(j, k)),
    {
        self.add(k, 1);
    }

    fn visit_blocks(&mut self, blocks: &Vec<Block>, depth: usize)
        requires
            old(self).wf(),
        ensures
            final(self).wf(),
            final(self).max_depth == max(old(self).max_depth as int, blocks_depth(blocks@, depth as int)),
            tallied(old(self).counts@, final(self).counts@, |k: int| blocks_total(blocks@, k)),
        decreases blocks, 1nat,
    {
        let ghost start = self.counts@;
        if depth > self.max_depth {
            self.max_depth = depth;
        }
        let m = self.max_depth;
        self.counts.set(MAXIMUM_BLOCK_DEPTH, m);
        let ghost top = self.max_depth;
        let next = if depth < usize::MAX {
            depth + 1
        } else {
            depth
        };
        let mut i: usize = 0;
        while i < blocks.len()
            invariant
                self.wf(),
                i <= blocks@.len(),
                next == deeper(depth as int),
                top == max(old(self).max_depth as int, depth as int),
                self.max_depth == max(top as int, nested_depth(blocks@.subrange(0, i as int), next as int)),
                tallied(start, self.counts@, |k: int| blocks_total(blocks@.subrange(0, i as int), k)),
            decreases blocks.len() - i,
        {
            assert(decreases_to!(blocks => blocks@[i as int]));
            self.visit_block(&blocks[i], next);
            proof {
                assert(blocks@.subrange(0, i + 1).drop_last() =~= blocks@.subrange(0, i as int));
            }
            i += 1;
        }
        proof {
            assert(blocks@.subrange(0, blocks@.len() as int) =~= blocks@);
        }
    }

    fn visit_block(&mut self, block: &Block, deeper: usize)
        requires
            old(self).wf(),
        ensures
            final(self).wf(),
            final(self).max_depth == max(old(self).max_depth as int, block_depth(*block, deeper as int)),
            tallied(old(self).counts@, final(self).counts@, |k: int| block_total(*block, k)),
        decreases block, 0nat,
    {
        self.increment(BLOCK_NODES);
        match block {
            Block::Heading { content, .. } => {
                self.increment(HEADINGS);
                self.visit_inlines(content);
            },
            Block::Paragraph { content } => {
                self.increment(PARAGRAPHS);
                self.visit_inlines(content);
            },
            Block::CodeBlock { language, .. } => {
                self.increment(CODE_BLOCKS);
                if language.is_some() {
                    self.increment(CODE_LANGUAGES);
                }
            },
            Block::BlockQuote { children } => {
                self.increment(BLOCK_QUOTES);
                self.visit_blocks(children, deeper);
            },
            Block::UnorderedList { items } => {
                self.increment(UNORDERED_LISTS);
                self.add(LIST_ITEMS, items.len());
                self.visit_items(items, deeper);
            },
            Block::OrderedList { start, items } => {
                self.increment(ORDERED_LISTS);
                self.add(ORDERED_START_TOTAL, *start as usize);
                if *start != 1 {
                    self.increment(NONDEFAULT_ORDERED_STARTS);
                }
                self.add(LIST_ITEMS, items.len());
                self.visit_items(items, deeper);
            },
            Block::DescriptionList { items } => {
                self.increment(DESCRIPTION_LISTS);
                self.add(DESCRIPTION_ITEMS, items.len());
                self.visit_descriptions(items, deeper);
            },
            Block::Table { headers, alignments, rows } => {
                self.increment(TABLES);
                let n = if rows.len() < usize::MAX {
                    rows.len() + 1
                } else {
                    usize::MAX
                };
                self.add(TABLE_ROWS, n);
                self.visit_alignments(alignments);
                self.visit_cells(headers);
                self.visit_rows(rows);
            },
            Block::HorizontalRule => self.increment(HORIZONTAL_RULES),
            Block::RawBlock { format, .. } => {
                self.increment(RAW_BLOCKS);
                if format.is_some() {
                    self.increment(RAW_BLOCK_FORMATS);
                }
            },
        }
    }

    fn visit_items(&mut self, items: &Vec<ListItem>, depth: usize)
        requires
            old(self).wf(),
        ensures
            final(self).wf(),
            final(self).max_depth == max(old(self).max_depth as int, items_depth(items@, depth as int)),
            tallied(old(self).counts@, final(self).counts@, |k: int| items_total(items@, k)),
        decreases items, 0nat,
    {
        let ghost start = self.counts@;
        let ghost top = self.max_depth;
        let mut i: usize = 0;
        while i < items.len()
            invariant
                self.wf(),
                i <= items@.len(),
                self.max_depth == max(top as int, items_depth(items@.subrange(0, i as int), depth as int)),
                tallied(start, self.counts@, |k: int| items_total(items@.subrange(0, i as int), k)),
            decreases items.len() - i,
        {
            assert(decreases_to!(items => items@[i as int]));
            assert(decreases_to!(items@[i as int] => items@[i as int].content));
            self.visit_blocks(&items[i].content, depth);
            proof {
                assert(items@.subrange(0, i + 1).drop_last() =~= items@.subrange(0, i as int));
            }
            i += 1;
        }
        proof {
            assert(items@.subrange(0, items@.len() as int) =~= items@);
        }
    }

    fn visit_definitions(&mut self, definitions: &Vec<Vec<Block>>, depth: usize)
        requires
            old(self).wf(),
        ensures
            final(self).wf(),
            final(self).max_depth == max(
                old(self).max_depth as int,
                definitions_depth(definitions@, depth as int),
            ),
            tallied(old(self).counts@, final(self).counts@, |k: int| definitions_total(definitions@, k)),
        decreases definitions, 0nat,
    {
        let ghost start = self.counts@;
        let ghost top = self.max_depth;
        let mut d: usize = 0;
        while d < definitions.len()
            invariant
                self.wf(),
                d <= definitions@.len(),
                self.max_depth == max(top as int, definitions_depth(definitions@.subrange(0, d as int), depth as int)),
                tallied(start, self.counts@, |k: int| definitions_total(definitions@.subrange(0, d as int), k)),
            decreases definitions.len() - d,
        {
            assert(decreases_to!(definitions => definitions@[d as int]));
            self.visit_blocks(&definitions[d], depth);
            proof {
                assert(definitions@.subrange(0, d + 1).drop_last() =~= definitions@.subrange(0, d as int));
            }
            d += 1;
        }
        proof {
            assert(definitions@.subrange(0, definitions@.len() as int) =~= definitions@);
        }
    }

    fn visit_descriptions(&mut self, items: &Vec<DescriptionItem>, depth: usize)
        requires
            old(self).wf(),
        ensures
            final(self).wf(),
            final(self).max_depth == max(old(self).max_depth as int, descriptions_depth(items@, depth as int)),
            tallied(old(self).counts@, final(self).counts@, |k: int| descriptions_total(items@, k)),
        decreases items, 0nat,
    {
        let ghost start = self.counts@;
        let ghost top = self.max_depth;
        let mut i: usize = 0;
        while i < items.len()
            invariant
                self.wf(),
                i <= items@.len(),
                self.max_depth == max(top as int, descriptions_depth(items@.subrange(0, i as int), depth as int)),
                tallied(start, self.counts@, |k: int| descriptions_total(items@.subrange(0, i as int), k)),
            decreases items.len() - i,
        {
            let item = &items[i];
            self.add(DEFINITIONS, item.definitions.len());
            self.visit_inlines(&item.term);
            assert(decreases_to!(items => items@[i as int]));
            assert(decreases_to!(items@[i as int] => items@[i as int].definitions));
            self.visit_definitions(&item.definitions, depth);
            proof {
                assert(items@.subrange(0, i + 1).drop_last() =~= items@.subrange(0, i as int));
            }
            i += 1;
        }
        proof {
            assert(items@.subrange(0, items@.len() as int) =~= items@);
        }
    }

    fn visit_alignments(&mut self, alignments: &Vec<ColumnAlignment>)
        requires
            old(self).wf(),
        ensures
            final(self).wf(),
            final(self).max_depth == old(self).max_depth,
            tallied(old(self).counts@, final(self).counts@, |k: int| alignments_total(alignments@, k)),
    {
        let ghost start = self.counts@;
        let mut i: usize = 0;
        while i < alignments.len()
            invariant
                self.wf(),
                i <= alignments@.len(),
                self.max_depth == old(self).max_depth,
                tallied(start, self.counts@, |k: int| alignments_total(alignments@.subrange(0, i as int), k)),
            decreases alignments.len() - i,
        {
            let f = match alignments[i] {
                ColumnAlignment::Left => ALIGNMENT_LEFT,
                ColumnAlignment::Center => ALIGNMENT_CENTER,
                ColumnAlignment::Right => ALIGNMENT_RIGHT,
                ColumnAlignment::Default => ALIGNMENT_DEFAULT,
            };
            self.increment(f);
            proof {
                assert(alignments@.subrange(0, i + 1).drop_last() =~= alignments@.subrange(0, i as int));
            }
            i += 1;
        }
        proof {
            assert(alignments@.subrange(0, alignments@.len() as int) =~= alignments@);
        }
    }

    fn visit_cell(&mut self, cell: &TableCell)
        requires
            old(self).wf(),
        ensures
            final(self).wf(),
            final(self).max_depth == old(self).max_depth,
            tallied(old(self).counts@, final(self).counts@, |k: int| cell_total(*cell, k)),
    {
        self.increment(TABLE_CELLS);
        if cell.colspan > 1 {
            self.increment(COLUMN_SPANS);
            self.add(COLUMN_SPAN_WIDTH, cell.colspan as usize);
        }
        if cell.rowspan > 1 {
            self.increment(ROW_SPANS);
            self.add(ROW_SPAN_HEIGHT, cell.rowspan as usize);
        }
        self.visit_inlines(&cell.content);
    }

    fn visit_cells(&mut self, cells: &Vec<TableCell>)
        requires
            old(self).wf(),
        ensures
            final(self).wf(),
            final(self).max_depth == old(self).max_depth,
            tallied(old(self).counts@, final(self).counts@, |k: int| cells_total(cells@, k)),
    {
        let ghost start = self.counts@;
        let mut c: usize = 0;
        while c < cells.len()
            invariant
                self.wf(),
                c <= cells@.len(),
                self.max_depth == old(self).max_depth,
                tallied(start, self.counts@, |k: int| cells_total(cells@.subrange(0, c as int), k)),
            decreases cells.len() - c,
        {
            self.visit_cell(&cells[c]);
            proof {
                assert(cells@.subrange(0, c + 1).drop_last() =~= cells@.subrange(0, c as int));
            }
            c += 1;
        }
        proof {
            assert(cells@.subrange(0, cells@.len() as int) =~= cells@);
        }
    }

    fn visit_rows(&mut self, rows: &Vec<Vec<TableCell>>)
        requires
            old(self).wf(),
        ensures
            final(self).wf(),
            final(self).max_depth == old(self).max_depth,
            tallied(old(self).counts@, final(self).counts@, |k: int| rows_total(rows@, k)),
    {
        let ghost start = self.counts@;
        let mut r: usize = 0;
        while r < rows.len()
            invariant
                self.wf(),
                r <= rows@.len(),
                self.max_depth == old(self).max_depth,
                tallied(start, self.counts@, |k: int| rows_total(rows@.subrange(0, r as int), k)),
            decreases rows.len() - r,
        {
            self.visit_cells(&rows[r]);
            proof {
                assert(rows@.subrange(0, r + 1).drop_last() =~= rows@.subrange(0, r as int));
            }
            r += 1;
        }
        proof {
            assert(rows@.subrange(0, rows@.len() as int) =~= rows@);
        }
    }

    fn visit_inlines(&mut self, inlines: &Vec<Inline>)
        requires
            old(self).wf(),
        ensures
            final(self).wf(),
            final(self).max_depth == old(self).max_depth,
            tallied(old(self).counts@, final(self).counts@, |k: int| inlines_total(inlines@, k)),
        decreases inlines, 1nat,
    {
        let ghost start = self.counts@;
        let mut i: usize = 0;
        while i < inlines.len()
            invariant
                self.wf(),
                i <= inlines@.len(),
                self.max_depth == old(self).max_depth,
                tallied(start, self.counts@, |k: int| inlines_total(inlines@.subrange(0, i as int), k)),
            decreases inlines.len() - i,
        {
            assert(decreases_to!(inlines => inlines@[i as int]));
            self.visit_inline(&inlines[i]);
            proof {
                assert(inlines@.subrange(0, i + 1).drop_last() =~= inlines@.subrange(0, i as int));
            }
            i += 1;
        }
        proof {
            assert(inlines@.subrange(0, inlines@.len() as int) =~= inlines@);
        }
    }

    fn visit_inline(&mut self, inline: &Inline)
        requires
            old(self).wf(),
        ensures
            final(self).wf(),
            final(self).max_depth == old(self).max_depth,
            tallied(old(self).counts@, final(self).counts@, |k: int| inline_total(*inline, k)),
        decreases inline, 0nat,
    {
        self.increment(INLINE_NODES);
        match inline {
            Inline::Text(t) => self.add(TEXT_CHARACTERS, chars_of_string(t).len()),
            Inline::Bold(c) => {
                self.increment(BOLD);
                self.visit_inlines(c);
            },
            Inline::Italic(c) => {
                self.increment(ITALIC);
                self.visit_inlines(c);
            },
            Inline::BoldItalic(c) => {
                self.increment(BOLD_ITALIC);
                self.visit_inlines(c);
            },
            Inline::Strikethrough(c) => {
                self.increment(STRIKETHROUGH);
                self.visit_inlines(c);
            },
            Inline::Superscript(c) => {
                self.increment(SUPERSCRIPT);
                self.visit_inlines(c);
            },
            Inline::Subscript(c) => {
                self.increment(SUBSCRIPT);
                self.visit_inlines(c);
            },
            Inline::InlineCode(code) => {
                self.increment(INLINE_CODE);
                self.add(INLINE_CODE_CHARACTERS, chars_of_string(code).len());
            },
            Inline::Link { text, title, .. } => {
                self.increment(LINKS);
                if title.is_some() {
                    self.increment(LINK_TITLES);
                }
                self.visit_inlines(text);
            },
            Inline::Image { alt, title, link, .. } => {
                self.increment(IMAGES);
                if title.is_some() {
                    self.increment(IMAGE_TITLES);
                }
                if link.is_some() {
                    self.increment(LINKED_IMAGES);
                }
                self.visit_inlines(alt);
            },
            Inline::HardLineBreak => self.increment(HARD_BREAKS),
            Inline::SoftLineBreak => self.increment(SOFT_BREAKS),
            Inline::RawInline { format, .. } => {
                self.increment(RAW_INLINES);
                if format.is_some() {
                    self.increment(RAW_INLINE_FORMATS);
                }
            },
        }
    }
}

/// The feature counts of a document.
pub fn inventory(document: &Document) -> (inv: Inventory)
    ensures
        inv.wf(),
        forall|k: int| 0 <= k < FEATURE_COUNT ==> #[trigger] inv.counts@[k] == feature_count(*document, k),
{
    let mut inv = Inventory::new();
    inv.visit_blocks(&document.children, 1);
    inv
}

// ---------------------------------------------------------------------------
// Reports
// ---------------------------------------------------------------------------

/// The features below `n` whose counts in `a` and `b` differ, in order.
pub open spec fn differing(a: Document, b: Document, n: int) -> Seq<int>
    decreases n,
{
    if n <= 0 {
        seq![]
    } else {
        let d = differing(a, b, n - 1);
        if feature_count(a, n - 1) != feature_count(b, n - 1) {
            d.push(n - 1)
        } else {
            d
        }
    }
}

/// `c` reports feature `k` with its counts in `a` and in `b`.
pub open spec fn reports(c: FeatureChange, a: Document, b: Document, k: int) -> bool {
    &&& c.feature@ == feature_name_spec(k)
    &&& c.before == feature_count(a, k)
    &&& c.after == feature_count(b, k)
}

/// The report that comparing `original` with `reparsed` gives: `Preserved`
/// with no change when they are equal; otherwise `Changed`, listing every
/// feature whose count differs in the order of the features' names, or,
/// where every count agrees, the one change `semantic_structure` (1 to 0).
pub open spec fn comparison(original: Document, reparsed: Document, r: PreservationReport) -> bool {
    if documents_equal_spec(&original, &reparsed) {
        r.status == PreservationStatus::Preserved && r.changes@.len() == 0
    } else {
        let d = differing(original, reparsed, FEATURE_COUNT as int);
        &&& r.status == PreservationStatus::Changed
        &&& if d.len() > 0 {
            &&& r.changes@.len() == d.len()
            &&& forall|i: int|
                0 <= i < d.len() ==> reports(#[trigger] r.changes@[i], original, reparsed, d[i])
        } else {
            &&& r.changes@.len() == 1
            &&& r.changes@[0].feature@ == "semantic_structure"@
            &&& r.changes@[0].before == 1
            &&& r.changes@[0].after == 0
        }
    }
}

/// The report for output that could not be read back.
pub open spec fn unverifiable_report(r: PreservationReport) -> bool {
    &&& r.status == PreservationStatus::Unverifiable
    &&& r.changes@.len() == 1
    &&& r.changes@[0].feature@ == "target_reparse"@
    &&& r.changes@[0].before == 1
    &&& r.changes@[0].after == 0
}

/// Compares a document with what reading its output back gave.
pub fn compare(original: &Document, reparsed: &Document) -> (r: PreservationReport)
    ensures
        comparison(*original, *reparsed, r),
{
    if documents_equal(original, reparsed) {
        return PreservationReport { status: PreservationStatus::Preserved, changes: Vec::new() };
    }
    let before = inventory(original);
    let after = inventory(reparsed);
    let mut changes: Vec<FeatureChange> = Vec::new();
    let mut k: usize = 0;
    while k < FEATURE_COUNT
        invariant
            k <= FEATURE_COUNT,
            before.wf(),
            after.wf(),
            forall|j: int| 0 <= j < FEATURE_COUNT ==> #[trigger] before.counts@[j] == feature_count(*original, j),
            forall|j: int| 0 <= j < FEATURE_COUNT ==> #[trigger] after.counts@[j] == feature_count(*reparsed, j),
            changes@.len() == differing(*original, *reparsed, k as int).len(),
            forall|i: int|
                0 <= i < changes@.len() ==> reports(
                    #[trigger] changes@[i],
                    *original,
                    *reparsed,
                    differing(*original, *reparsed, k as int)[i],
                ),
        decreases FEATURE_COUNT - k,
    {
        let b = before.counts[k];
        let a = after.counts[k];
        if b != a {
            changes.push(FeatureChange { feature: feature_name(k), before: b, after: a });
        }
        k += 1;
    }
    if changes.len() == 0 {
        changes.push(FeatureChange { feature: "semantic_structure", before: 1, after: 0 });
    }
    PreservationReport { status: PreservationStatus::Changed, changes }
}

/// The report on a conversion whose output could not be read back.
pub(crate) fn unverifiable() -> (r: PreservationReport)
    ensures
        unverifiable_report(r),
{
    let mut changes: Vec<FeatureChange> = Vec::new();
    changes.push(FeatureChange { feature: "target_reparse", before: 1, after: 0 });
    PreservationReport { status: PreservationStatus::Unverifiable, changes }
}

/// Whether `r` is the report for what reading the output back gave, `p`: the
/// comparison of `original` with the document read, or the `Unverifiable`
/// report where reading failed.
pub open spec fn report_for(original: Document, p: Result<Document, crate::error::ParseError>, r: PreservationReport) -> bool {
    match p {
        Ok(reparsed) => comparison(original, reparsed, r),
        Err(_) => unverifiable_report(r),
    }
}

/// Reads `output` back in `target` and compares it with `original`: the
/// report is the comparison with what `parse` reads, or, where the output
/// cannot be read, the `Unverifiable` report. Either way the report finds
/// nothing changed exactly when it lists no change.
pub fn analyze(original: &Document, output: &str, target: Format) -> (r: PreservationReport)
    ensures
        exists|p: Result<Document, crate::error::ParseError>| #[trigger] crate::reading_allows(output@, target, p)
            && report_for(*original, p, r),
        r.status == PreservationStatus::Preserved <==> r.changes@.len() == 0,
{
    let p = crate::parse(output, target);
    let ghost pg = p;
    match p {
        Ok(reparsed) => {
            let r = compare(original, &reparsed);
            assert(crate::reading_allows(output@, target, pg) && report_for(*original, pg, r));
            r
        },
        Err(_) => {
            let r = unverifiable();
            assert(crate::reading_allows(output@, target, pg) && report_for(*original, pg, r));
            r
        },
    }
}

/// A document read back exactly as it was is reported preserved, with no
/// change listed.
pub proof fn law_identical_reading_is_preserved(d: Document, r: PreservationReport)
    requires
        comparison(d, d, r),
    ensures
        r.status == PreservationStatus::Preserved,
        r.changes@.len() == 0,
{
    law_document_equals_itself(d);
}

/// A comparison reports nothing changed exactly when it lists no change, and
/// a reading back that differs is never reported preserved.
pub proof fn law_changes_explain_the_status(a: Document, b: Document, r: PreservationReport)
    requires
        comparison(a, b, r),
    ensures
        r.status == PreservationStatus::Preserved <==> r.changes@.len() == 0,
        r.status == PreservationStatus::Preserved <==> documents_equal_spec(&a, &b),
{
}

proof fn lemma_differing_symmetric(a: Document, b: Document, n: int)
    ensures
        differing(a, b, n) == differing(b, a, n),
    decreases n,
{
    if n > 0 {
        lemma_differing_symmetric(a, b, n - 1);
    }
}

/// Comparing the other way round gives the same status and lists the same
/// features; where some count differs, each change has its counts swapped.
pub proof fn law_comparison_either_way(
    a: Document,
    b: Document,
    r1: PreservationReport,
    r2: PreservationReport,
)
    requires
        comparison(a, b, r1),
        comparison(b, a, r2),
    ensures
        r1.status == r2.status,
        r1.changes@.len() == r2.changes@.len(),
        forall|i: int|
            0 <= i < r1.changes@.len() ==> (#[trigger] r1.changes@[i]).feature@ == r2.changes@[i].feature@,
        differing(a, b, FEATURE_COUNT as int).len() > 0 ==> forall|i: int|
            0 <= i < r1.changes@.len() ==> (#[trigger] r1.changes@[i]).before == r2.changes@[i].after
                && r1.changes@[i].after == r2.changes@[i].before,
{
    law_document_equality_is_symmetric(a, b);
    lemma_differing_symmetric(a, b, FEATURE_COUNT as int);
    if !documents_equal_spec(&a, &b) {
        let d = differing(a, b, FEATURE_COUNT as int);
        if d.len() > 0 {
            assert forall|i: int| 0 <= i < r1.changes@.len() implies (#[trigger] r1.changes@[i]).feature@
                == r2.changes@[i].feature@ by {
                assert(reports(r1.changes@[i], a, b, d[i]));
                assert(reports(r2.changes@[i], b, a, d[i]));
            }
        }
    }
}

/// A reading back that changes a heading's level is never reported
/// preserved: the report lists a change.
pub proof fn law_changed_heading_level_is_reported(a: Document, b: Document, r: PreservationReport)
    requires
        comparison(a, b, r),
        a.children@.len() == 1,
        b.children@.len() == 1,
        a.children@[0] matches Block::Heading { level: la, .. },
        b.children@[0] matches Block::Heading { level: lb, .. },
        a.children@[0]->level != b.children@[0]->level,
    ensures
        r.status != PreservationStatus::Preserved,
        r.changes@.len() > 0,
{
    crate::equality::law_heading_level_matters(a, b);
    law_changes_explain_the_status(a, b, r);
}

} // verus!
