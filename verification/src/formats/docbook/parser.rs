//! Strict DocBook reader: an `<article>` of a fixed set of DocBook elements.
use vstd::prelude::*;

use crate::ast::{Block, ColumnAlignment, DescriptionItem, Document, Inline, ListItem, TableCell};
use crate::error::ParseError;
use crate::format::Parser;
use crate::formats::html::parser::{element_count, invalid, invalid_with, positive_attr, require_empty, text_only, validate_attrs};
use crate::formats::strict_xml::{decode_spec, no_tag_from, text_nodes, attr_value, has_attr_named, attrs_allowed, XmlElement, XmlNode, parse_xml};
use crate::text::{parse_unsigned_spec, all_ws, chars_of, eq_lit, is_blank, parse_unsigned, push_all, push_str, string_of, strip_prefix_lit};

verus! {

pub struct DocBookParser;

impl Parser for DocBookParser {
    fn parse(&self, input: &str) -> (r: Result<Document, ParseError>)
        ensures
            no_tag_from(input@, 0) ==> r is Err,
    {
        match parse_docbook(input) {
            Ok(children) => Ok(Document { children }),
            Err(e) => Err(e),
        }
    }
}

/// Parses a strict DocBook article.
pub(crate) fn parse_docbook(input: &str) -> (r: Result<Vec<Block>, ParseError>)
    ensures
        no_tag_from(input@, 0) ==> r is Err,
{
    let nodes = match parse_xml(input, false) {
        Ok(n) => n,
        Err(e) => return Err(e),
    };
    proof {
        if no_tag_from(input@, 0) {
            let t = decode_spec(input@)->Ok_0;
            assert(text_nodes(nodes@, t));
            assert forall|i: int| !#[trigger] single_root_at(nodes@, i) by {}
        }
    }
    let ri = match single_root(&nodes) {
        Ok(i) => i,
        Err(e) => return Err(e),
    };
    let root = match &nodes[ri] {
        XmlNode::Element(e) => e,
        XmlNode::Text(_) => return Err(invalid("empty DocBook document")),
    };
    if !root.is("article") {
        return Err(invalid("strict DocBook input must have an <article> root"));
    }
    match validate_attrs(root, "xmlns", "xmlns:xlink", "version") {
        Ok(()) => {},
        Err(e) => return Err(e),
    }
    let ns_ok = match root.attr("xmlns") {
        Some(v) => eq_lit(&v, "http://docbook.org/ns/docbook"),
        None => false,
    };
    if !ns_ok {
        return Err(invalid("DocBook <article> requires the DocBook namespace"));
    }
    parse_block_nodes(&root.children)
}

/// The index of the single root element; text outside it must be blank.
/// Node `j` is blank text.
pub open spec fn blank_text(n: XmlNode) -> bool {
    n matches XmlNode::Text(t) && all_ws(t@)
}

/// The nodes are one element, at `i`, and blank text around it.
pub open spec fn single_root_at(nodes: Seq<XmlNode>, i: int) -> bool {
    &&& 0 <= i < nodes.len()
    &&& nodes[i] is Element
    &&& forall|j: int| 0 <= j < nodes.len() && j != i ==> blank_text(#[trigger] nodes[j])
}

fn single_root(nodes: &Vec<XmlNode>) -> (r: Result<usize, ParseError>)
    ensures
        r matches Ok(i) ==> i < nodes@.len() && single_root_at(nodes@, i as int),
        r is Err ==> forall|i: int| !#[trigger] single_root_at(nodes@, i),
{
    let mut root: Option<usize> = None;
    let mut i: usize = 0;
    while i < nodes.len()
        invariant
            i <= nodes.len(),
            root matches Some(k) ==> k < i && nodes@[k as int] is Element && forall|j: int|
                0 <= j < i && j != k ==> blank_text(#[trigger] nodes@[j]),
            root is None ==> forall|j: int| 0 <= j < i ==> blank_text(#[trigger] nodes@[j]),
        decreases nodes.len() - i,
    {
        match &nodes[i] {
            XmlNode::Text(t) => {
                if !is_blank(t) {
                    proof {
                        assert forall|x: int| !#[trigger] single_root_at(nodes@, x) by {
                            if single_root_at(nodes@, x) && x != i {
                                assert(blank_text(nodes@[i as int]));
                            }
                        }
                    }
                    return Err(invalid("text is not allowed outside <article>"));
                }
            },
            XmlNode::Element(_) => {
                if root.is_some() {
                    proof {
                        let k = root->0;
                        assert forall|x: int| !#[trigger] single_root_at(nodes@, x) by {
                            if single_root_at(nodes@, x) {
                                if x != i {
                                    assert(blank_text(nodes@[i as int]));
                                } else {
                                    assert(blank_text(nodes@[k as int]));
                                }
                            }
                        }
                    }
                    return Err(invalid("DocBook requires a single root element"));
                }
                root = Some(i);
            },
        }
        i += 1;
    }
    proof {
        if root is None {
            assert forall|x: int| !#[trigger] single_root_at(nodes@, x) by {
                if single_root_at(nodes@, x) {
                    assert(blank_text(nodes@[x]));
                }
            }
        }
    }
    match root {
        Some(k) => Ok(k),
        None => Err(invalid("empty DocBook document")),
    }
}

fn role_is(el: &XmlElement, value: &str) -> bool {
    match el.attr("role") {
        Some(v) => eq_lit(&v, value),
        None => false,
    }
}

fn attr_string(el: &XmlElement, name: &str) -> (r: Option<String>)
    ensures
        r matches Some(v) ==> attr_value(*el, name@, v@),
        r is None ==> !has_attr_named(*el, name@),
{
    match el.attr(name) {
        Some(v) => Some(string_of(&v)),
        None => None,
    }
}

/// The block elements of strict DocBook: `bridgehead`, `para`,
/// `programlisting`, `blockquote`, `itemizedlist`, `orderedlist`,
/// `variablelist` and `informaltable`.
pub open spec fn docbook_block_name(n: Seq<char>) -> bool {
    ||| n == "bridgehead"@
    ||| n == "para"@
    ||| n == "programlisting"@
    ||| n == "blockquote"@
    ||| n == "itemizedlist"@
    ||| n == "orderedlist"@
    ||| n == "variablelist"@
    ||| n == "informaltable"@
}

/// The inline elements of strict DocBook: `emphasis`, `phrase`,
/// `superscript`, `subscript`, `code`, `link` and `inlinemediaobject`.
pub open spec fn docbook_inline_name(n: Seq<char>) -> bool {
    ||| n == "emphasis"@
    ||| n == "phrase"@
    ||| n == "superscript"@
    ||| n == "subscript"@
    ||| n == "code"@
    ||| n == "link"@
    ||| n == "inlinemediaobject"@
}

/// Every element among the nodes is an inline element.
pub open spec fn docbook_inline_nodes(nodes: Seq<XmlNode>) -> bool {
    forall|j: int| 0 <= j < nodes.len() ==> (#[trigger] nodes[j] matches XmlNode::Element(e) ==> docbook_inline_name(e.name@))
}

/// A node that may stand where blocks are read: blank text or a block
/// element.
pub open spec fn docbook_block_node(n: XmlNode) -> bool {
    match n {
        XmlNode::Text(t) => all_ws(t@),
        XmlNode::Element(e) => docbook_block_name(e.name@),
    }
}

fn parse_block_nodes(nodes: &Vec<XmlNode>) -> (r: Result<Vec<Block>, ParseError>)
    ensures
        r is Ok ==> forall|j: int| 0 <= j < nodes@.len() ==> docbook_block_node(#[trigger] nodes@[j]),
    decreases nodes, 2nat,
{
    let mut blocks: Vec<Block> = Vec::new();
    let mut i: usize = 0;
    while i < nodes.len()
        invariant
            i <= nodes.len(),
            forall|j: int| 0 <= j < i ==> docbook_block_node(#[trigger] nodes@[j]),
        decreases nodes.len() - i,
    {
        assert(decreases_to!(nodes => nodes@[i as int]));
        match &nodes[i] {
            XmlNode::Text(t) => {
                if !is_blank(t) {
                    return Err(invalid("DocBook block text must be wrapped in a supported element"));
                }
            },
            XmlNode::Element(e) => match parse_block(e) {
                Ok(b) => blocks.push(b),
                Err(err) => return Err(err),
            },
        }
        i += 1;
    }
    Ok(blocks)
}

/// The heading level of `renderas="sectN"`, N from 1 to 6.
fn bridgehead_level(el: &XmlElement) -> (r: Option<u8>)
    ensures
        r matches Some(l) ==> 1 <= l <= 6,
{
    match el.attr("renderas") {
        Some(v) => match strip_prefix_lit(&v, "sect") {
            Some(n) => match parse_unsigned(&n, 255) {
                Some(l) => {
                    if 1 <= l && l <= 6 {
                        Some(l as u8)
                    } else {
                        None
                    }
                },
                None => None,
            },
            None => None,
        },
        None => None,
    }
}

fn parse_block(el: &XmlElement) -> (r: Result<Block, ParseError>)
    ensures
        r is Ok ==> docbook_block_name(el.name@),
        r is Ok && (el.name@ == "bridgehead"@ || el.name@ == "para"@) ==> docbook_inline_nodes(el.children@),
    decreases el, 1nat,
{
    if el.is("bridgehead") {
        match validate_attrs(el, "renderas", "", "") {
            Ok(()) => {},
            Err(e) => return Err(e),
        }
        let level = match bridgehead_level(el) {
            Some(l) => l,
            None => return Err(invalid("<bridgehead> renderas must be sect1 through sect6")),
        };
        return match parse_inline_nodes(&el.children) {
            Ok(content) => Ok(Block::Heading { level, content }),
            Err(e) => Err(e),
        };
    }
    if el.is("para") {
        if role_is(el, "morph-horizontal-rule") {
            match validate_attrs(el, "role", "", "") {
                Ok(()) => {},
                Err(e) => return Err(e),
            }
            return match require_empty(el) {
                Ok(()) => Ok(Block::HorizontalRule),
                Err(e) => Err(e),
            };
        }
        match validate_attrs(el, "", "", "") {
            Ok(()) => {},
            Err(e) => return Err(e),
        }
        return match parse_inline_nodes(&el.children) {
            Ok(content) => Ok(Block::Paragraph { content }),
            Err(e) => Err(e),
        };
    }
    if el.is("programlisting") {
        if role_is(el, "morph-raw") {
            match validate_attrs(el, "role", "remap", "") {
                Ok(()) => {},
                Err(e) => return Err(e),
            }
            return match text_only(el) {
                Ok(content) => Ok(Block::RawBlock { format: attr_string(el, "remap"), content }),
                Err(e) => Err(e),
            };
        }
        match validate_attrs(el, "language", "", "") {
            Ok(()) => {},
            Err(e) => return Err(e),
        }
        return match text_only(el) {
            Ok(content) => Ok(Block::CodeBlock { language: attr_string(el, "language"), content }),
            Err(e) => Err(e),
        };
    }
    if el.is("blockquote") {
        match validate_attrs(el, "", "", "") {
            Ok(()) => {},
            Err(e) => return Err(e),
        }
        return match parse_block_nodes(&el.children) {
            Ok(children) => Ok(Block::BlockQuote { children }),
            Err(e) => Err(e),
        };
    }
    if el.is("itemizedlist") || el.is("orderedlist") {
        return parse_list(el, el.is("orderedlist"));
    }
    if el.is("variablelist") {
        return parse_variable_list(el);
    }
    if el.is("informaltable") {
        return parse_table(el);
    }
    Err(invalid_with("unsupported strict DocBook block element <", &el.name, ">"))
}

/// A child that a DocBook list may hold: text, or a `<listitem>` element.
pub open spec fn listitem_child(n: XmlNode) -> bool {
    n matches XmlNode::Element(c) ==> c.name@ == "listitem"@
}

fn parse_list(el: &XmlElement, ordered: bool) -> (r: Result<Block, ParseError>)
    ensures
        r is Ok ==> attrs_allowed(*el, if ordered { "startingnumber"@ } else { ""@ }, ""@, ""@),
        r is Ok ==> forall|j: int| 0 <= j < el.children@.len() ==> listitem_child(#[trigger] el.children@[j]),
        r matches Ok(b) ==> match b {
            Block::OrderedList { start, items } => ordered && items@.len() == element_count(el.children@)
                && (!has_attr_named(*el, "startingnumber"@) ==> start == 1) && (has_attr_named(
                *el,
                "startingnumber"@,
            ) ==> exists|s: Seq<char>| #[trigger] attr_value(*el, "startingnumber"@, s) && parse_unsigned_spec(
                s,
                4294967295,
            ) == Some(start as nat)),
            Block::UnorderedList { items } => !ordered && items@.len() == element_count(el.children@),
            _ => false,
        },
    decreases el, 0nat,
{
    proof {
        reveal_strlit("");
        reveal_strlit("listitem");
    }
    let v = if ordered {
        validate_attrs(el, "startingnumber", "", "")
    } else {
        validate_attrs(el, "", "", "")
    };
    match v {
        Ok(()) => {},
        Err(e) => return Err(e),
    }
    let ghost mut sv: Seq<char> = seq![];
    let start: u32 = match el.attr("startingnumber") {
        Some(s) => match parse_unsigned(&s, 4294967295) {
            Some(n) => {
                proof {
                    sv = s@;
                }
                assert(attr_value(*el, "startingnumber"@, sv));
                n as u32
            },
            None => return Err(invalid("startingnumber must be a positive integer")),
        },
        None => 1,
    };
    assert(has_attr_named(*el, "startingnumber"@) ==> attr_value(*el, "startingnumber"@, sv)
        && parse_unsigned_spec(sv, 4294967295) == Some(start as nat));
    let mut items: Vec<ListItem> = Vec::new();
    let mut i: usize = 0;
    while i < el.children.len()
        invariant
            i <= el.children.len(),
            items@.len() == element_count(el.children@.subrange(0, i as int)),
            forall|j: int| 0 <= j < i ==> listitem_child(#[trigger] el.children@[j]),
        decreases el.children.len() - i,
    {
        assert(el.children@.subrange(0, i + 1).drop_last() =~= el.children@.subrange(0, i as int));
        assert(decreases_to!(el => el.children));
        assert(decreases_to!(el.children => el.children@[i as int]));
        if let XmlNode::Element(child) = &el.children[i] {
            if !child.is("listitem") {
                return Err(invalid("lists may only contain <listitem>"));
            }
            match validate_attrs(child, "", "", "") {
                Ok(()) => {},
                Err(e) => return Err(e),
            }
            match parse_block_nodes(&child.children) {
                Ok(content) => items.push(ListItem { content }),
                Err(e) => return Err(e),
            }
        }
        i += 1;
    }
    assert(el.children@.subrange(0, i as int) =~= el.children@);
    if ordered {
        Ok(Block::OrderedList { start, items })
    } else {
        Ok(Block::UnorderedList { items })
    }
}

/// The index of the first child element named `name`.
fn first_child(el: &XmlElement, name: &str) -> (r: Option<usize>)
    ensures
        r matches Some(i) ==> i < el.children@.len(),
{
    let mut i: usize = 0;
    while i < el.children.len()
        invariant
            i <= el.children.len(),
        decreases el.children.len() - i,
    {
        if let XmlNode::Element(c) = &el.children[i] {
            if c.is(name) {
                return Some(i);
            }
        }
        i += 1;
    }
    None
}

fn parse_variable_list(el: &XmlElement) -> (r: Result<Block, ParseError>)
    ensures
        r is Ok ==> attrs_allowed(*el, ""@, ""@, ""@),
        r matches Ok(b) ==> (b matches Block::DescriptionList { items } && items@.len() == element_count(
            el.children@,
        )),
    decreases el, 0nat,
{
    match validate_attrs(el, "", "", "") {
        Ok(()) => {},
        Err(e) => return Err(e),
    }
    let mut items: Vec<DescriptionItem> = Vec::new();
    let mut i: usize = 0;
    while i < el.children.len()
        invariant
            i <= el.children.len(),
            items@.len() == element_count(el.children@.subrange(0, i as int)),
        decreases el.children.len() - i,
    {
        assert(el.children@.subrange(0, i + 1).drop_last() =~= el.children@.subrange(0, i as int));
        assert(decreases_to!(el => el.children));
        assert(decreases_to!(el.children => el.children@[i as int]));
        if let XmlNode::Element(entry) = &el.children[i] {
            match parse_var_entry(entry) {
                Ok(item) => items.push(item),
                Err(e) => return Err(e),
            }
        }
        i += 1;
    }
    assert(el.children@.subrange(0, i as int) =~= el.children@);
    Ok(Block::DescriptionList { items })
}

/// One `<varlistentry>`: its `<term>` and each `<listitem>` definition.
/// The number of element nodes among `s` named `name`.
pub open spec fn named_count(s: Seq<XmlNode>, name: Seq<char>) -> nat
    decreases s.len(),
{
    if s.len() == 0 {
        0
    } else {
        named_count(s.drop_last(), name) + if named_element(s.last(), name) { 1nat } else { 0nat }
    }
}

fn parse_var_entry(entry: &XmlElement) -> (r: Result<DescriptionItem, ParseError>)
    ensures
        r is Ok ==> entry.name@ == "varlistentry"@ && attrs_allowed(*entry, ""@, ""@, ""@),
        r matches Ok(item) ==> item.definitions@.len() == named_count(entry.children@, "listitem"@)
            && item.definitions@.len() >= 1,
    decreases entry, 0nat,
{
    if !entry.is("varlistentry") {
        return Err(invalid("<variablelist> may only contain <varlistentry>"));
    }
    match validate_attrs(entry, "", "", "") {
        Ok(()) => {},
        Err(e) => return Err(e),
    }
    let ti = match first_child(entry, "term") {
        Some(t) => t,
        None => return Err(invalid("<varlistentry> requires <term>")),
    };
    assert(decreases_to!(entry => entry.children));
    assert(decreases_to!(entry.children => entry.children@[ti as int]));
    let term = match &entry.children[ti] {
        XmlNode::Element(t) => t,
        XmlNode::Text(_) => return Err(invalid("<varlistentry> requires <term>")),
    };
    match validate_attrs(term, "", "", "") {
        Ok(()) => {},
        Err(e) => return Err(e),
    }
    let mut definitions: Vec<Vec<Block>> = Vec::new();
    let mut k: usize = 0;
    while k < entry.children.len()
        invariant
            k <= entry.children.len(),
            definitions@.len() == named_count(entry.children@.subrange(0, k as int), "listitem"@),
        decreases entry.children.len() - k,
    {
        assert(entry.children@.subrange(0, k + 1).drop_last() =~= entry.children@.subrange(0, k as int));
        assert(decreases_to!(entry => entry.children));
        assert(decreases_to!(entry.children => entry.children@[k as int]));
        if let XmlNode::Element(d) = &entry.children[k] {
            if d.is("listitem") {
                match validate_attrs(d, "", "", "") {
                    Ok(()) => {},
                    Err(e) => return Err(e),
                }
                match parse_block_nodes(&d.children) {
                    Ok(b) => definitions.push(b),
                    Err(e) => return Err(e),
                }
            }
        }
        k += 1;
    }
    assert(entry.children@.subrange(0, k as int) =~= entry.children@);
    if definitions.len() == 0 {
        return Err(invalid("<varlistentry> requires <listitem>"));
    }
    match parse_inline_nodes(&term.children) {
        Ok(t) => Ok(DescriptionItem { term: t, definitions }),
        Err(e) => Err(e),
    }
}

/// The index of the only child element named `name`.
/// Node `n` is an element named `name`.
pub open spec fn named_element(n: XmlNode, name: Seq<char>) -> bool {
    n matches XmlNode::Element(c) && c.name@ == name
}

fn only_child(el: &XmlElement, name: &str) -> (r: Result<usize, ParseError>)
    ensures
        r matches Ok(i) ==> i < el.children@.len() && named_element(el.children@[i as int], name@)
            && forall|j: int| 0 <= j < el.children@.len() && j != i ==> !named_element(
            #[trigger] el.children@[j],
            name@,
        ),
        r is Err ==> forall|i: int|
            0 <= i < el.children@.len() && named_element(#[trigger] el.children@[i], name@) ==> exists|j: int|
                0 <= j < el.children@.len() && j != i && named_element(#[trigger] el.children@[j], name@),
{
    let mut found: Option<usize> = None;
    let mut count: usize = 0;
    let mut i: usize = 0;
    while i < el.children.len()
        invariant
            i <= el.children.len(),
            count <= i,
            found matches Some(k) ==> k < el.children@.len(),
            found is None ==> count == 0 && forall|j: int| 0 <= j < i ==> !named_element(#[trigger] el.children@[j], name@),
            found matches Some(k) ==> k < i && count >= 1 && named_element(el.children@[k as int], name@),
            found matches Some(k) ==> count == 1 ==> forall|j: int| 0 <= j < i && j != k ==> !named_element(#[trigger] el.children@[j], name@),
            found matches Some(k) ==> count >= 2 ==> exists|j: int| 0 <= j < i && j != k && named_element(#[trigger] el.children@[j], name@),
        decreases el.children.len() - i,
    {
        if let XmlNode::Element(c) = &el.children[i] {
            if c.is(name) {
                assert(named_element(el.children@[i as int], name@));
                if count == 0 {
                    found = Some(i);
                }
                if count < usize::MAX {
                    count += 1;
                }
            }
        }
        i += 1;
    }
    proof {
        if let Some(k) = found {
            if count >= 2 {
                let j = choose|j: int| 0 <= j < i && j != k && named_element(#[trigger] el.children@[j], name@);
                assert forall|x: int|
                    0 <= x < el.children@.len() && named_element(#[trigger] el.children@[x], name@) implies exists|y: int|
                        0 <= y < el.children@.len() && y != x && named_element(#[trigger] el.children@[y], name@) by {
                    if x == k {
                        assert(named_element(el.children@[j], name@));
                    } else {
                        assert(named_element(el.children@[k as int], name@));
                    }
                }
            }
        }
    }
    match found {
        Some(k) => {
            if count == 1 {
                return Ok(k);
            }
        },
        None => {},
    }
    let mut m = chars_of("<");
    push_all(&mut m, &el.name);
    push_str(&mut m, "> requires exactly one <");
    push_str(&mut m, name);
    m.push('>');
    Err(ParseError::InvalidInput(string_of(&m)))
}

fn parse_alignment(value: Option<Vec<char>>) -> Result<ColumnAlignment, ParseError> {
    match value {
        Some(v) => {
            if eq_lit(&v, "left") {
                Ok(ColumnAlignment::Left)
            } else if eq_lit(&v, "center") {
                Ok(ColumnAlignment::Center)
            } else if eq_lit(&v, "right") {
                Ok(ColumnAlignment::Right)
            } else {
                Err(invalid_with("unsupported CALS alignment '", &v, "'"))
            }
        },
        None => Ok(ColumnAlignment::Default),
    }
}

/// The column number of a CALS column name `cN`, N positive.
pub(crate) fn parse_colname(value: &Vec<char>) -> (r: Result<usize, ParseError>)
    ensures
        r matches Ok(n) ==> n > 0,
{
    match strip_prefix_lit(value, "c") {
        Some(n) => match parse_unsigned(&n, usize::MAX as u64) {
            Some(k) => {
                if k > 0 {
                    return Ok(k as usize);
                }
            },
            None => {},
        },
        None => {},
    }
    Err(invalid("CALS column names must use c1, c2, ..."))
}

fn parse_table(el: &XmlElement) -> (r: Result<Block, ParseError>)
    decreases el, 0nat,
{
    match validate_attrs(el, "", "", "") {
        Ok(()) => {},
        Err(e) => return Err(e),
    }
    let gi = match only_child(el, "tgroup") {
        Ok(i) => i,
        Err(e) => return Err(e),
    };
    assert(decreases_to!(el => el.children));
    assert(decreases_to!(el.children => el.children@[gi as int]));
    match &el.children[gi] {
        XmlNode::Element(g) => parse_tgroup(g),
        XmlNode::Text(_) => Err(invalid("<tgroup> requires cols")),
    }
}

/// A CALS `<tgroup>`: its column count and `<colspec>` alignments, a
/// `<thead>` of one row and a `<tbody>` of rows.
fn parse_tgroup(tgroup: &XmlElement) -> (r: Result<Block, ParseError>)
    decreases tgroup, 0nat,
{
    match validate_attrs(tgroup, "cols", "", "") {
        Ok(()) => {},
        Err(e) => return Err(e),
    }
    let cols: u32 = match positive_attr(tgroup, "cols") {
        Ok(Some(n)) => n,
        Ok(None) => return Err(invalid("<tgroup> requires cols")),
        Err(e) => return Err(e),
    };
    let columns = cols as usize;
    let mut alignments: Vec<ColumnAlignment> = Vec::new();
    let mut k: usize = 0;
    while k < columns
        invariant
            k <= columns,
            alignments@.len() == k,
        decreases columns - k,
    {
        alignments.push(ColumnAlignment::Default);
        k += 1;
    }
    let mut i: usize = 0;
    while i < tgroup.children.len()
        invariant
            i <= tgroup.children.len(),
            alignments@.len() == columns,
        decreases tgroup.children.len() - i,
    {
        if let XmlNode::Element(colspec) = &tgroup.children[i] {
            if colspec.is("colspec") {
                match validate_attrs(colspec, "colname", "align", "") {
                    Ok(()) => {},
                    Err(e) => return Err(e),
                }
                match require_empty(colspec) {
                    Ok(()) => {},
                    Err(e) => return Err(e),
                }
                let index = match colspec.attr("colname") {
                    Some(name) => match strip_prefix_lit(&name, "c") {
                        Some(n) => match parse_unsigned(&n, usize::MAX as u64) {
                            Some(x) => {
                                if x > 0 && x <= columns as u64 {
                                    x as usize
                                } else {
                                    return Err(invalid("colspec colname must be c1 through cN"));
                                }
                            },
                            None => return Err(invalid("colspec colname must be c1 through cN")),
                        },
                        None => return Err(invalid("colspec colname must be c1 through cN")),
                    },
                    None => return Err(invalid("colspec colname must be c1 through cN")),
                };
                match parse_alignment(colspec.attr("align")) {
                    Ok(a) => alignments.set(index - 1, a),
                    Err(e) => return Err(e),
                }
            }
        }
        i += 1;
    }
    let hi = match first_child(tgroup, "thead") {
        Some(x) => x,
        None => return Err(invalid("<tgroup> requires <thead>")),
    };
    let bi = match first_child(tgroup, "tbody") {
        Some(x) => x,
        None => return Err(invalid("<tgroup> requires <tbody>")),
    };
    assert(decreases_to!(tgroup => tgroup.children));
    assert(decreases_to!(tgroup.children => tgroup.children@[hi as int]));
    assert(decreases_to!(tgroup.children => tgroup.children@[bi as int]));
    let (thead, tbody) = match (&tgroup.children[hi], &tgroup.children[bi]) {
        (XmlNode::Element(h), XmlNode::Element(b)) => (h, b),
        _ => return Err(invalid("<tgroup> requires <thead>")),
    };
    match validate_attrs(thead, "", "", "") {
        Ok(()) => {},
        Err(e) => return Err(e),
    }
    match validate_attrs(tbody, "", "", "") {
        Ok(()) => {},
        Err(e) => return Err(e),
    }
    let head_rows = thead.element_children();
    if head_rows.len() != 1 {
        return Err(invalid("<thead> requires exactly one <row>"));
    }
    let hr = head_rows[0];
    assert(decreases_to!(thead => thead.children));
    assert(decreases_to!(thead.children => thead.children@[hr as int]));
    let row0 = match &thead.children[hr] {
        XmlNode::Element(r) => r,
        XmlNode::Text(_) => return Err(invalid("<thead> requires exactly one <row>")),
    };
    if !row0.is("row") {
        return Err(invalid("<thead> requires exactly one <row>"));
    }
    let headers = match parse_cals_row(row0, columns) {
        Ok(h) => h,
        Err(e) => return Err(e),
    };
    match parse_body_rows(tbody, columns) {
        Ok(rows) => Ok(Block::Table { headers, alignments, rows }),
        Err(e) => Err(e),
    }
}

fn parse_body_rows(tbody: &XmlElement, columns: usize) -> (r: Result<Vec<Vec<TableCell>>, ParseError>)
    requires
        columns <= 0xFFFF_FFFF,
    ensures
        r is Ok ==> forall|j: int| 0 <= j < tbody.children@.len() ==> (#[trigger] tbody.children@[j] matches XmlNode::Element(c)
            ==> c.name@ == "row"@),
        r matches Ok(rows) ==> rows@.len() == element_count(tbody.children@),
    decreases tbody, 0nat,
{
    let mut rows: Vec<Vec<TableCell>> = Vec::new();
    let mut r: usize = 0;
    while r < tbody.children.len()
        invariant
            r <= tbody.children.len(),
            columns <= 0xFFFF_FFFF,
            rows@.len() == element_count(tbody.children@.subrange(0, r as int)),
            forall|j: int| 0 <= j < r ==> (#[trigger] tbody.children@[j] matches XmlNode::Element(c)
                ==> c.name@ == "row"@),
        decreases tbody.children.len() - r,
    {
        assert(tbody.children@.subrange(0, r + 1).drop_last() =~= tbody.children@.subrange(0, r as int));
        assert(decreases_to!(tbody => tbody.children));
        assert(decreases_to!(tbody.children => tbody.children@[r as int]));
        if let XmlNode::Element(row) = &tbody.children[r] {
            if !row.is("row") {
                return Err(invalid("<tbody> may only contain <row>"));
            }
            match parse_cals_row(row, columns) {
                Ok(cells) => rows.push(cells),
                Err(e) => return Err(e),
            }
        }
        r += 1;
    }
    assert(tbody.children@.subrange(0, r as int) =~= tbody.children@);
    Ok(rows)
}

fn parse_cals_row(el: &XmlElement, columns: usize) -> (r: Result<Vec<TableCell>, ParseError>)
    requires
        columns <= 0xFFFF_FFFF,
    decreases el, 0nat,
{
    match validate_attrs(el, "", "", "") {
        Ok(()) => {},
        Err(e) => return Err(e),
    }
    let mut cells: Vec<TableCell> = Vec::new();
    let mut cursor: usize = 1;
    let mut i: usize = 0;
    while i < el.children.len()
        invariant
            i <= el.children.len(),
            columns <= 0xFFFF_FFFF,
            cursor >= 1,
        decreases el.children.len() - i,
    {
        assert(decreases_to!(el => el.children));
        assert(decreases_to!(el.children => el.children@[i as int]));
        if let XmlNode::Element(entry) = &el.children[i] {
            if !entry.is("entry") {
                return Err(invalid("<row> may only contain <entry>"));
            }
            match validate_attrs(entry, "namest", "nameend", "morerows") {
                Ok(()) => {},
                Err(e) => return Err(e),
            }
            let start = match entry.attr("namest") {
                Some(v) => match parse_colname(&v) {
                    Ok(n) => n,
                    Err(e) => return Err(e),
                },
                None => cursor,
            };
            let end = match entry.attr("nameend") {
                Some(v) => match parse_colname(&v) {
                    Ok(n) => n,
                    Err(e) => return Err(e),
                },
                None => start,
            };
            if start > end || end > columns {
                return Err(invalid("invalid CALS entry span"));
            }
            let more: u32 = match entry.attr("morerows") {
                Some(v) => match parse_unsigned(&v, 4294967295) {
                    Some(n) => n as u32,
                    None => return Err(invalid("morerows must be a non-negative integer")),
                },
                None => 0,
            };
            let rowspan = if more < u32::MAX {
                more + 1
            } else {
                more
            };
            let width = end - start;
            #[verifier::truncate]
            let colspan = (width + 1) as u32;
            match parse_inline_nodes(&entry.children) {
                Ok(content) => cells.push(TableCell::with_span(content, colspan, rowspan)),
                Err(e) => return Err(e),
            }
            cursor = if end < usize::MAX {
                end + 1
            } else {
                end
            };
        }
        i += 1;
    }
    Ok(cells)
}

fn parse_inline_nodes(nodes: &Vec<XmlNode>) -> (r: Result<Vec<Inline>, ParseError>)
    ensures
        r is Ok ==> docbook_inline_nodes(nodes@),
    decreases nodes, 2nat,
{
    let mut result: Vec<Inline> = Vec::new();
    let mut i: usize = 0;
    while i < nodes.len()
        invariant
            i <= nodes.len(),
            forall|j: int| 0 <= j < i ==> (#[trigger] nodes@[j] matches XmlNode::Element(e) ==> docbook_inline_name(e.name@)),
        decreases nodes.len() - i,
    {
        assert(decreases_to!(nodes => nodes@[i as int]));
        match &nodes[i] {
            XmlNode::Text(t) => {
                if t.len() > 0 {
                    result.push(Inline::Text(string_of(t)));
                }
            },
            XmlNode::Element(e) => match parse_inline(e) {
                Ok(inl) => result.push(inl),
                Err(err) => return Err(err),
            },
        }
        i += 1;
    }
    Ok(result)
}

fn parse_inline(el: &XmlElement) -> (r: Result<Inline, ParseError>)
    ensures
        r is Ok ==> docbook_inline_name(el.name@),
        r is Ok && (el.name@ == "emphasis"@ || el.name@ == "superscript"@ || el.name@ == "subscript"@)
            ==> docbook_inline_nodes(el.children@),
    decreases el, 1nat,
{
    let role1 = if el.is("emphasis") && role_is(el, "strong") {
        1u8
    } else if el.is("phrase") && role_is(el, "bold-italic") {
        2
    } else if el.is("phrase") && role_is(el, "strikethrough") {
        3
    } else {
        0
    };
    if role1 > 0 {
        match validate_attrs(el, "role", "", "") {
            Ok(()) => {},
            Err(e) => return Err(e),
        }
        let content = match parse_inline_nodes(&el.children) {
            Ok(c) => c,
            Err(e) => return Err(e),
        };
        return Ok(
            if role1 == 1 {
                Inline::Bold(content)
            } else if role1 == 2 {
                Inline::BoldItalic(content)
            } else {
                Inline::Strikethrough(content)
            },
        );
    }
    let plain = if el.is("emphasis") {
        1u8
    } else if el.is("superscript") {
        2
    } else if el.is("subscript") {
        3
    } else {
        0
    };
    if plain > 0 {
        match validate_attrs(el, "", "", "") {
            Ok(()) => {},
            Err(e) => return Err(e),
        }
        let content = match parse_inline_nodes(&el.children) {
            Ok(c) => c,
            Err(e) => return Err(e),
        };
        return Ok(
            if plain == 1 {
                Inline::Italic(content)
            } else if plain == 2 {
                Inline::Superscript(content)
            } else {
                Inline::Subscript(content)
            },
        );
    }
    if el.is("phrase") && (role_is(el, "morph-hard-break") || role_is(el, "morph-soft-break")) {
        match validate_attrs(el, "role", "", "") {
            Ok(()) => {},
            Err(e) => return Err(e),
        }
        return match require_empty(el) {
            Ok(()) => Ok(
                if role_is(el, "morph-hard-break") {
                    Inline::HardLineBreak
                } else {
                    Inline::SoftLineBreak
                },
            ),
            Err(e) => Err(e),
        };
    }
    if el.is("phrase") && role_is(el, "morph-raw") {
        match validate_attrs(el, "role", "remap", "") {
            Ok(()) => {},
            Err(e) => return Err(e),
        }
        return match text_only(el) {
            Ok(content) => Ok(Inline::RawInline { format: attr_string(el, "remap"), content }),
            Err(e) => Err(e),
        };
    }
    if el.is("code") {
        match validate_attrs(el, "", "", "") {
            Ok(()) => {},
            Err(e) => return Err(e),
        }
        return match text_only(el) {
            Ok(t) => Ok(Inline::InlineCode(t)),
            Err(e) => Err(e),
        };
    }
    if el.is("link") {
        return parse_link(el);
    }
    if el.is("inlinemediaobject") {
        return parse_image(el, None);
    }
    Err(invalid_with("unsupported strict DocBook inline element <", &el.name, ">"))
}

fn parse_link(el: &XmlElement) -> (r: Result<Inline, ParseError>)
    ensures
        !attrs_allowed(*el, "xlink:href"@, "xlink:title"@, ""@) || !has_attr_named(*el, "xlink:href"@) ==> r is Err,
        r matches Ok(x) ==> match x {
            Inline::Link { url, title, .. } => attr_value(*el, "xlink:href"@, url@) && (title matches Some(t)
                ==> attr_value(*el, "xlink:title"@, t@)) && (title is None ==> !has_attr_named(
                *el,
                "xlink:title"@,
            )),
            Inline::Image { link: Some(u), .. } => attr_value(*el, "xlink:href"@, u@),
            _ => false,
        },
    decreases el, 0nat,
{
    match validate_attrs(el, "xlink:href", "xlink:title", "") {
        Ok(()) => {},
        Err(e) => return Err(e),
    }
    let url = match el.attr("xlink:href") {
        Some(u) => string_of(&u),
        None => return Err(invalid("<link> requires xlink:href")),
    };
    let mut content = match parse_inline_nodes(&el.children) {
        Ok(c) => c,
        Err(e) => return Err(e),
    };
    if content.len() == 1 {
        let only = content.pop().unwrap();
        match only {
            Inline::Image { url: image_url, alt, title, link: None } => {
                return Ok(Inline::Image { url: image_url, alt, title, link: Some(url) });
            },
            other => content.push(other),
        }
    }
    Ok(Inline::Link { url, text: content, title: attr_string(el, "xlink:title") })
}

fn parse_image(el: &XmlElement, link: Option<String>) -> (r: Result<Inline, ParseError>)
    ensures
        !attrs_allowed(*el, ""@, ""@, ""@) ==> r is Err,
        r matches Ok(x) ==> (x matches Inline::Image { link: l, alt, .. } && l == link && alt@.len() <= 1),
{
    proof {
        reveal_strlit("");
    }
    match validate_attrs(el, "", "", "") {
        Ok(()) => {},
        Err(e) => return Err(e),
    }
    let oi = match first_child(el, "imageobject") {
        Some(i) => i,
        None => return Err(invalid("<inlinemediaobject> requires <imageobject>")),
    };
    let imageobject = match &el.children[oi] {
        XmlNode::Element(o) => o,
        XmlNode::Text(_) => return Err(invalid("<inlinemediaobject> requires <imageobject>")),
    };
    match validate_attrs(imageobject, "", "", "") {
        Ok(()) => {},
        Err(e) => return Err(e),
    }
    let di = match only_child(imageobject, "imagedata") {
        Ok(i) => i,
        Err(e) => return Err(e),
    };
    let data = match &imageobject.children[di] {
        XmlNode::Element(d) => d,
        XmlNode::Text(_) => return Err(invalid("<imagedata> requires fileref")),
    };
    match validate_attrs(data, "fileref", "xlink:title", "") {
        Ok(()) => {},
        Err(e) => return Err(e),
    }
    match require_empty(data) {
        Ok(()) => {},
        Err(e) => return Err(e),
    }
    let mut alt: Vec<Inline> = Vec::new();
    if let Some(ti) = first_child(el, "textobject") {
        if let XmlNode::Element(textobject) = &el.children[ti] {
            if let Some(pi) = first_child(textobject, "phrase") {
                if let XmlNode::Element(phrase) = &textobject.children[pi] {
                    match text_only(phrase) {
                        Ok(t) => alt.push(Inline::Text(t)),
                        Err(e) => return Err(e),
                    }
                }
            }
        }
    }
    let url = match data.attr("fileref") {
        Some(u) => string_of(&u),
        None => return Err(invalid("<imagedata> requires fileref")),
    };
    Ok(Inline::Image { url, alt, title: attr_string(data, "xlink:title"), link })
}

} // verus!
