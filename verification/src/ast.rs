//! The document model that every parser produces and every emitter reads.
use vstd::prelude::*;

verus! {

#[derive(Clone, Debug, PartialEq)]
pub struct Document {
    pub children: Vec<Block>,
}

#[derive(Debug, PartialEq)]
pub enum Block {
    Heading { level: u8, content: Vec<Inline> },
    Paragraph { content: Vec<Inline> },
    CodeBlock { language: Option<String>, content: String },
    BlockQuote { children: Vec<Block> },
    UnorderedList { items: Vec<ListItem> },
    OrderedList { start: u32, items: Vec<ListItem> },
    DescriptionList { items: Vec<DescriptionItem> },
    Table { headers: Vec<TableCell>, alignments: Vec<ColumnAlignment>, rows: Vec<Vec<TableCell>> },
    HorizontalRule,
    RawBlock { format: Option<String>, content: String },
}

#[derive(Debug, PartialEq)]
pub struct ListItem {
    pub content: Vec<Block>,
}

#[derive(Debug, PartialEq)]
pub struct DescriptionItem {
    pub term: Vec<Inline>,
    pub definitions: Vec<Vec<Block>>,
}

#[derive(Clone, Debug, PartialEq)]
pub struct TableCell {
    pub content: Vec<Inline>,
    pub colspan: u32,
    pub rowspan: u32,
}

impl TableCell {
    /// A cell that spans one column and one row.
    pub fn new(content: Vec<Inline>) -> (cell: TableCell)
        ensures
            cell.content == content,
            cell.colspan == 1,
            cell.rowspan == 1,
    {
        TableCell { content, colspan: 1, rowspan: 1 }
    }

    /// A cell with the given column and row spans.
    pub fn with_span(content: Vec<Inline>, colspan: u32, rowspan: u32) -> (cell: TableCell)
        ensures
            cell.content == content,
            cell.colspan == colspan,
            cell.rowspan == rowspan,
    {
        TableCell { content, colspan, rowspan }
    }

    pub open spec fn spans(&self) -> bool {
        self.colspan > 1 || self.rowspan > 1
    }

    /// Whether the cell spans more than one column or more than one row.
    pub fn has_span(&self) -> (b: bool)
        ensures
            b == self.spans(),
    {
        self.colspan > 1 || self.rowspan > 1
    }
}

/// A cell built by `TableCell::new` has no span.
pub proof fn law_new_cell_has_no_span(cell: TableCell)
    requires
        cell.colspan == 1,
        cell.rowspan == 1,
    ensures
        !cell.spans(),
{
}

#[derive(Debug, Clone, Copy, PartialEq, Eq, Structural)]
pub enum ColumnAlignment {
    Left,
    Center,
    Right,
    Default,
}

#[derive(Debug, PartialEq)]
pub enum Inline {
    Text(String),
    Bold(Vec<Inline>),
    Italic(Vec<Inline>),
    BoldItalic(Vec<Inline>),
    Strikethrough(Vec<Inline>),
    Superscript(Vec<Inline>),
    Subscript(Vec<Inline>),
    InlineCode(String),
    Link { url: String, text: Vec<Inline>, title: Option<String> },
    Image { url: String, alt: Vec<Inline>, title: Option<String>, link: Option<String> },
    HardLineBreak,
    SoftLineBreak,
    RawInline { format: Option<String>, content: String },
}

impl Clone for Block {
    fn clone(&self) -> (r: Self)
        ensures
            crate::equality::block_eq_spec(*self, r),
    {
        crate::equality::copy_block(self)
    }
}

impl Clone for ListItem {
    fn clone(&self) -> (r: Self)
        ensures
            crate::equality::blocks_eq_spec(self.content@, r.content@),
    {
        ListItem { content: crate::equality::copy_blocks(&self.content) }
    }
}

impl Clone for DescriptionItem {
    fn clone(&self) -> (r: Self)
        ensures
            crate::equality::inlines_eq_spec(self.term@, r.term@),
            crate::equality::definitions_eq_spec(self.definitions@, r.definitions@),
    {
        crate::equality::copy_description(self)
    }
}

impl Clone for Inline {
    fn clone(&self) -> (r: Self)
        ensures
            crate::equality::inline_eq_spec(*self, r),
    {
        crate::equality::copy_inline(self)
    }
}

/// The mathematical value of an inline: its texts as character sequences and
/// its children as sequences of values.
pub ghost enum InlineModel {
    Text(Seq<char>),
    Bold(Seq<InlineModel>),
    Italic(Seq<InlineModel>),
    BoldItalic(Seq<InlineModel>),
    Strikethrough(Seq<InlineModel>),
    Superscript(Seq<InlineModel>),
    Subscript(Seq<InlineModel>),
    InlineCode(Seq<char>),
    Link { url: Seq<char>, text: Seq<InlineModel>, title: Option<Seq<char>> },
    Image { url: Seq<char>, alt: Seq<InlineModel>, title: Option<Seq<char>>, link: Option<Seq<char>> },
    HardLineBreak,
    SoftLineBreak,
    RawInline { format: Option<Seq<char>>, content: Seq<char> },
}

/// The view of an optional string.
pub open spec fn opt_string(o: Option<String>) -> Option<Seq<char>> {
    match o {
        Some(s) => Some(s@),
        None => None,
    }
}

/// The value of an inline.
pub open spec fn inline_model(x: Inline) -> InlineModel
    decreases x, 1nat,
{
    match x {
        Inline::Text(t) => InlineModel::Text(t@),
        Inline::Bold(v) => InlineModel::Bold(inlines_model(v@)),
        Inline::Italic(v) => InlineModel::Italic(inlines_model(v@)),
        Inline::BoldItalic(v) => InlineModel::BoldItalic(inlines_model(v@)),
        Inline::Strikethrough(v) => InlineModel::Strikethrough(inlines_model(v@)),
        Inline::Superscript(v) => InlineModel::Superscript(inlines_model(v@)),
        Inline::Subscript(v) => InlineModel::Subscript(inlines_model(v@)),
        Inline::InlineCode(t) => InlineModel::InlineCode(t@),
        Inline::Link { url, text, title } => InlineModel::Link {
            url: url@,
            text: inlines_model(text@),
            title: opt_string(title),
        },
        Inline::Image { url, alt, title, link } => InlineModel::Image {
            url: url@,
            alt: inlines_model(alt@),
            title: opt_string(title),
            link: opt_string(link),
        },
        Inline::HardLineBreak => InlineModel::HardLineBreak,
        Inline::SoftLineBreak => InlineModel::SoftLineBreak,
        Inline::RawInline { format, content } => InlineModel::RawInline {
            format: opt_string(format),
            content: content@,
        },
    }
}

/// The values of a sequence of inlines.
pub open spec fn inlines_model(s: Seq<Inline>) -> Seq<InlineModel>
    decreases s, 0nat,
{
    if s.len() == 0 {
        seq![]
    } else {
        inlines_model(s.drop_last()).push(inline_model(s.last()))
    }
}

/// The value of a block: what it holds, with its children as sequences of
/// values.
pub ghost enum BlockModel {
    Heading { level: u8, content: Seq<InlineModel> },
    Paragraph(Seq<InlineModel>),
    CodeBlock { language: Option<Seq<char>>, content: Seq<char> },
    BlockQuote(Seq<BlockModel>),
    UnorderedList(Seq<Seq<BlockModel>>),
    OrderedList { start: u32, items: Seq<Seq<BlockModel>> },
    DescriptionList(Seq<(Seq<InlineModel>, Seq<Seq<BlockModel>>)>),
    Table {
        headers: Seq<(Seq<InlineModel>, u32, u32)>,
        alignments: Seq<ColumnAlignment>,
        rows: Seq<Seq<(Seq<InlineModel>, u32, u32)>>,
    },
    HorizontalRule,
    RawBlock { format: Option<Seq<char>>, content: Seq<char> },
}

/// The values of the cells of a row: each cell's inlines and spans.
pub open spec fn cells_model(s: Seq<TableCell>) -> Seq<(Seq<InlineModel>, u32, u32)>
    decreases s.len(),
{
    if s.len() == 0 {
        seq![]
    } else {
        cells_model(s.drop_last()).push((inlines_model(s.last().content@), s.last().colspan, s.last().rowspan))
    }
}

/// The values of the rows of a table.
pub open spec fn rows_model(s: Seq<Vec<TableCell>>) -> Seq<Seq<(Seq<InlineModel>, u32, u32)>>
    decreases s.len(),
{
    if s.len() == 0 {
        seq![]
    } else {
        rows_model(s.drop_last()).push(cells_model(s.last()@))
    }
}

/// The value of a block.
pub open spec fn block_model(b: Block) -> BlockModel
    decreases b,
{
    match b {
        Block::Heading { level, content } => BlockModel::Heading { level, content: inlines_model(content@) },
        Block::Paragraph { content } => BlockModel::Paragraph(inlines_model(content@)),
        Block::CodeBlock { language, content } => BlockModel::CodeBlock {
            language: opt_string(language),
            content: content@,
        },
        Block::BlockQuote { children } => BlockModel::BlockQuote(blocks_model(children@)),
        Block::UnorderedList { items } => BlockModel::UnorderedList(items_model(items@)),
        Block::OrderedList { start, items } => BlockModel::OrderedList { start, items: items_model(items@) },
        Block::DescriptionList { items } => BlockModel::DescriptionList(descriptions_model(items@)),
        Block::Table { headers, alignments, rows } => BlockModel::Table {
            headers: cells_model(headers@),
            alignments: alignments@,
            rows: rows_model(rows@),
        },
        Block::HorizontalRule => BlockModel::HorizontalRule,
        Block::RawBlock { format, content } => BlockModel::RawBlock { format: opt_string(format), content: content@ },
    }
}

/// The values of a sequence of blocks.
pub open spec fn blocks_model(s: Seq<Block>) -> Seq<BlockModel>
    decreases s,
{
    if s.len() == 0 {
        seq![]
    } else {
        blocks_model(s.drop_last()).push(block_model(s.last()))
    }
}

/// The values of list items: each item's blocks.
pub open spec fn items_model(s: Seq<ListItem>) -> Seq<Seq<BlockModel>>
    decreases s,
{
    if s.len() == 0 {
        seq![]
    } else {
        items_model(s.drop_last()).push(blocks_model(s.last().content@))
    }
}

/// The values of the definitions of a description.
pub open spec fn definitions_model(s: Seq<Vec<Block>>) -> Seq<Seq<BlockModel>>
    decreases s,
{
    if s.len() == 0 {
        seq![]
    } else {
        definitions_model(s.drop_last()).push(blocks_model(s.last()@))
    }
}

/// The values of description items: each term and its definitions.
pub open spec fn descriptions_model(s: Seq<DescriptionItem>) -> Seq<(Seq<InlineModel>, Seq<Seq<BlockModel>>)>
    decreases s,
{
    if s.len() == 0 {
        seq![]
    } else {
        descriptions_model(s.drop_last()).push(
            (inlines_model(s.last().term@), definitions_model(s.last().definitions@)),
        )
    }
}

} // verus!
