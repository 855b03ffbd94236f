//! Strict HTML reader: a fixed set of elements, each with the attributes it
//! may carry; anything else is an error.
use vstd::prelude::*;

use crate::ast::{Block, ColumnAlignment, DescriptionItem, Document, Inline, ListItem, TableCell};
use crate::error::ParseError;
use crate::format::Parser;
use crate::formats::common::emphasis_of;
use crate::formats::strict_xml::{decode_spec, no_tag_from, text_nodes, element_positions, attr_allowed, attr_value, has_attr_named, attrs_allowed, XmlElement, XmlNode, parse_xml};
use crate::text::{parse_unsigned_spec, split_spec, views, all_ws, chars_of, eq, eq_lit, is_blank, parse_unsigned, push_all, push_str, split_char, string_of, strip_prefix_lit};

verus! {

pub struct HtmlParser;

impl Parser for HtmlParser {
    fn parse(&self, input: &str) -> (r: Result<Document, ParseError>)
        ensures
            no_tag_from(input@, 0) ==> (r is Ok <==> blank_html_text(input@)),
            no_tag_from(input@, 0) ==> (r matches Ok(d) ==> d.children@.len() == 0),
    {
        match parse_html(input) {
            Ok(children) => Ok(Document { children }),
            Err(e) => Err(e),
        }
    }
}

/// A text without tags that the strict HTML reader takes: one whose
/// character references decode and whose decoded text is whitespace only.
/// Any other text outside an element is refused.
pub open spec fn blank_html_text(input: Seq<char>) -> bool {
    decode_spec(input) matches Ok(t) && all_ws(t)
}

/// Parses strict HTML: a fragment of block elements, or an `<html>`
/// document whose `<body>` holds them.
pub(crate) fn parse_html(input: &str) -> (r: Result<Vec<Block>, ParseError>)
    ensures
        no_tag_from(input@, 0) ==> (r is Ok <==> blank_html_text(input@)),
        no_tag_from(input@, 0) ==> (r matches Ok(b) ==> b@.len() == 0),
{
    let nodes = match parse_xml(input, true) {
        Ok(n) => n,
        Err(e) => return Err(e),
    };
    proof {
        if no_tag_from(input@, 0) {
            assert(decode_spec(input@) is Ok);
            let t = decode_spec(input@)->Ok_0;
            assert(text_nodes(nodes@, t));
            assert(!html_document(nodes@)) by {
                assert forall|i: int| !#[trigger] sole_element_at(nodes@, i) by {}
            }
            if all_ws(t) {
                assert forall|j: int| 0 <= j < nodes@.len() implies blank_node(#[trigger] nodes@[j]) by {}
            } else {
                assert(!html_block_node(nodes@[0]));
            }
        }
    }
    match html_body(&nodes) {
        Ok(Some((h, b))) => {
            if let XmlNode::Element(html) = &nodes[h] {
                if b < html.children.len() {
                    if let XmlNode::Element(body) = &html.children[b] {
                        return parse_block_nodes(&body.children);
                    }
                }
            }
            Ok(Vec::new())
        },
        Ok(None) => parse_block_nodes(&nodes),
        Err(e) => Err(e),
    }
}

pub(crate) fn invalid(m: &str) -> ParseError {
    ParseError::invalid(m)
}

/// An error whose message is `open`, `name` and `close`.
pub(crate) fn invalid_with(open: &str, name: &Vec<char>, close: &str) -> ParseError {
    let mut m = chars_of(open);
    push_all(&mut m, name);
    push_str(&mut m, close);
    ParseError::InvalidInput(string_of(&m))
}

/// When the nodes are a single `<html>` element (text aside), its index and
/// the index of its `<body>` child, after checking the document's shape.
/// Node `i` is the only element among the nodes.
pub open spec fn sole_element_at(nodes: Seq<XmlNode>, i: int) -> bool {
    &&& 0 <= i < nodes.len()
    &&& nodes[i] is Element
    &&& forall|j: int| 0 <= j < nodes.len() && j != i ==> !(#[trigger] nodes[j] is Element)
}

/// Node `n` is an element named `name`.
pub open spec fn element_named(n: XmlNode, name: Seq<char>) -> bool {
    n matches XmlNode::Element(c) && c.name@ == name
}

/// The nodes are a document: their only element is `<html>`.
pub open spec fn html_document(nodes: Seq<XmlNode>) -> bool {
    exists|i: int| #[trigger] sole_element_at(nodes, i) && element_named(nodes[i], "html"@)
}

fn html_body(nodes: &Vec<XmlNode>) -> (r: Result<Option<(usize, usize)>, ParseError>)
    ensures
        r matches Ok(Some((h, _))) ==> h < nodes@.len(),
        !html_document(nodes@) ==> r == Ok::<Option<(usize, usize)>, ParseError>(None),
        html_document(nodes@) ==> !(r matches Ok(None)),
        r matches Ok(Some((h, b))) ==> sole_element_at(nodes@, h as int) && element_named(nodes@[h as int], "html"@)
            && (nodes@[h as int] matches XmlNode::Element(e) && b < e.children@.len() && element_named(
            e.children@[b as int],
            "body"@,
        )),
{
    proof {
        reveal_strlit("html");
        reveal_strlit("body");
    }
    let mut count: usize = 0;
    let mut first: usize = 0;
    let mut i: usize = 0;
    while i < nodes.len()
        invariant
            i <= nodes.len(),
            count <= i,
            count > 0 ==> first < i && nodes@[first as int] is Element,
            count == 0 ==> forall|j: int| 0 <= j < i ==> !(#[trigger] nodes@[j] is Element),
            count == 1 ==> forall|j: int| 0 <= j < i && j != first ==> !(#[trigger] nodes@[j] is Element),
            count >= 2 ==> exists|j: int| 0 <= j < i && j != first && (#[trigger] nodes@[j] is Element),
        decreases nodes.len() - i,
    {
        if let XmlNode::Element(_) = &nodes[i] {
            if count == 0 {
                first = i;
            }
            count += 1;
        }
        i += 1;
    }
    if count != 1 {
        proof {
            assert forall|x: int| !(#[trigger] sole_element_at(nodes@, x) && element_named(nodes@[x], "html"@)) by {
                if sole_element_at(nodes@, x) {
                    if count >= 2 {
                        let j = choose|j: int| 0 <= j < i && j != first && (#[trigger] nodes@[j] is Element);
                        if x == first {
                            assert(nodes@[j] is Element);
                        } else {
                            assert(nodes@[first as int] is Element);
                        }
                    } else {
                        assert(nodes@[x] is Element);
                    }
                }
            }
        }
        return Ok(None);
    }
    assert(sole_element_at(nodes@, first as int));
    let html = match &nodes[first] {
        XmlNode::Element(e) => e,
        XmlNode::Text(_) => return Ok(None),
    };
    if !html.is("html") {
        proof {
            assert forall|x: int| !(#[trigger] sole_element_at(nodes@, x) && element_named(nodes@[x], "html"@)) by {
                if sole_element_at(nodes@, x) && x != first {
                    assert(nodes@[first as int] is Element);
                }
            }
        }
        return Ok(None);
    }
    assert(element_named(nodes@[first as int], "html"@));
    assert(html_document(nodes@));
    match validate_attrs(html, "lang", "", "") {
        Ok(()) => {},
        Err(e) => return Err(e),
    }
    let kids = html.element_children();
    let mut body: Option<usize> = None;
    let mut k: usize = 0;
    while k < kids.len()
        invariant
            k <= kids.len(),
            forall|j: int| 0 <= j < kids@.len() ==> #[trigger] kids@[j] < html.children@.len(),
            body matches Some(b) ==> b < html.children@.len(),
            body matches Some(b) ==> element_named(html.children@[b as int], "body"@),
        ensures
            body matches Some(b) ==> b < html.children@.len() && element_named(html.children@[b as int], "body"@),
        decreases kids.len() - k,
    {
        if let XmlNode::Element(c) = &html.children[kids[k]] {
            if c.is("body") {
                body = Some(kids[k]);
                break;
            }
        }
        k += 1;
    }
    let b = match body {
        Some(b) => b,
        None => return Err(invalid("<html> must contain <body>")),
    };
    if let XmlNode::Element(c) = &html.children[b] {
        match validate_attrs(c, "", "", "") {
            Ok(()) => {},
            Err(e) => return Err(e),
        }
    }
    let mut k: usize = 0;
    while k < kids.len()
        invariant
            k <= kids.len(),
            forall|j: int| 0 <= j < kids@.len() ==> #[trigger] kids@[j] < html.children@.len(),
            html_document(nodes@),
        decreases kids.len() - k,
    {
        if let XmlNode::Element(c) = &html.children[kids[k]] {
            if !c.is("head") && !c.is("body") {
                return Err(invalid_with("unsupported <", &c.name, "> child of <html>"));
            }
            if c.is("head") && has_meaningful_content(&c.children) {
                return Err(invalid("strict HTML does not accept document metadata in <head>"));
            }
        }
        k += 1;
    }
    Ok(Some((first, b)))
}

/// Whether the nodes hold an element or non-blank text.
pub(crate) fn has_meaningful_content(nodes: &Vec<XmlNode>) -> (b: bool)
    ensures
        b == exists|i: int| 0 <= i < nodes@.len() && match #[trigger] nodes@[i] {
            XmlNode::Element(_) => true,
            XmlNode::Text(t) => !all_ws(t@),
        },
{
    let mut i: usize = 0;
    while i < nodes.len()
        invariant
            i <= nodes.len(),
            forall|j: int| 0 <= j < i ==> match #[trigger] nodes@[j] {
                XmlNode::Element(_) => false,
                XmlNode::Text(t) => all_ws(t@),
            },
        decreases nodes.len() - i,
    {
        match &nodes[i] {
            XmlNode::Element(_) => return true,
            XmlNode::Text(t) => {
                if !is_blank(t) {
                    return true;
                }
            },
        }
        i += 1;
    }
    false
}

/// Checks that every attribute of the element is one of the allowed names.
pub(crate) fn validate_attrs(el: &XmlElement, a: &str, b: &str, c: &str) -> (r: Result<(), ParseError>)
    ensures
        r is Ok <==> forall|k: int| 0 <= k < el.attributes@.len() ==> attr_allowed(
            #[trigger] el.attributes@[k].0@,
            a@,
            b@,
            c@,
        ),
{
    let la = chars_of(a);
    let lb = chars_of(b);
    let lc = chars_of(c);
    let mut k: usize = 0;
    while k < el.attributes.len()
        invariant
            k <= el.attributes@.len(),
            la@ == a@,
            lb@ == b@,
            lc@ == c@,
            forall|j: int| 0 <= j < k ==> attr_allowed(#[trigger] el.attributes@[j].0@, a@, b@, c@),
        decreases el.attributes.len() - k,
    {
        let n = &el.attributes[k].0;
        let ok = (la.len() > 0 && eq(n, &la)) || (lb.len() > 0 && eq(n, &lb)) || (lc.len() > 0
            && eq(n, &lc));
        if !ok {
            assert(!attr_allowed(el.attributes@[k as int].0@, a@, b@, c@));
            let mut m = chars_of("unsupported '");
            push_all(&mut m, n);
            push_str(&mut m, "' attribute on <");
            push_all(&mut m, &el.name);
            m.push('>');
            return Err(ParseError::InvalidInput(string_of(&m)));
        }
        k += 1;
    }
    Ok(())
}

/// An element with no element children and only blank text.
pub(crate) fn require_empty(el: &XmlElement) -> (r: Result<(), ParseError>)
    ensures
        r is Ok <==> !has_meaningful_spec(el.children@),
{
    if has_meaningful_content(&el.children) {
        return Err(invalid_with("<", &el.name, "> must be empty"));
    }
    Ok(())
}

pub open spec fn has_meaningful_spec(nodes: Seq<XmlNode>) -> bool {
    exists|i: int| 0 <= i < nodes.len() && match #[trigger] nodes[i] {
        XmlNode::Element(_) => true,
        XmlNode::Text(t) => !all_ws(t@),
    }
}

/// The text of an element that holds only text.
pub(crate) fn text_only(el: &XmlElement) -> (r: Result<String, ParseError>)
    ensures
        r is Ok <==> forall|i: int| 0 <= i < el.children@.len() ==> (#[trigger] el.children@[i]) is Text,
{
    let mut t: Vec<char> = Vec::new();
    let mut i: usize = 0;
    while i < el.children.len()
        invariant
            i <= el.children.len(),
            forall|j: int| 0 <= j < i ==> (#[trigger] el.children@[j]) is Text,
        decreases el.children.len() - i,
    {
        match &el.children[i] {
            XmlNode::Text(c) => push_all(&mut t, c),
            XmlNode::Element(c) => {
                let mut m = chars_of("<");
                push_all(&mut m, &el.name);
                push_str(&mut m, "> may only contain text, found <");
                push_all(&mut m, &c.name);
                m.push('>');
                return Err(ParseError::InvalidInput(string_of(&m)));
            },
        }
        i += 1;
    }
    Ok(string_of(&t))
}

/// The attribute's value when it is there and not empty.
pub(crate) fn nonempty_attr(el: &XmlElement, name: &str) -> Option<String> {
    match el.attr(name) {
        Some(v) => {
            if v.len() > 0 {
                Some(string_of(&v))
            } else {
                None
            }
        },
        None => None,
    }
}

/// An attribute that must be a positive `u32` when present.
pub(crate) fn positive_attr(el: &XmlElement, name: &str) -> (r: Result<Option<u32>, ParseError>)
    ensures
        r matches Ok(Some(n)) ==> n > 0,
{
    match el.attr(name) {
        Some(v) => match parse_unsigned(&v, 4294967295) {
            Some(n) => {
                if n > 0 {
                    Ok(Some(n as u32))
                } else {
                    Err(invalid_with("", &chars_of(name), " must be a positive integer"))
                }
            },
            None => Err(invalid_with("", &chars_of(name), " must be a positive integer")),
        },
        None => Ok(None),
    }
}

/// `h1` to `h6`.
pub open spec fn heading_name(n: Seq<char>) -> bool {
    n.len() == 2 && n[0] == 'h' && '1' <= n[1] && n[1] <= '6'
}

/// The block elements of strict HTML: `h1` to `h6`, `p`, `pre`,
/// `blockquote`, `ul`, `ol`, `dl`, `table` and `hr`.
pub open spec fn html_block_name(n: Seq<char>) -> bool {
    ||| heading_name(n)
    ||| n == "p"@
    ||| n == "pre"@
    ||| n == "blockquote"@
    ||| n == "ul"@
    ||| n == "ol"@
    ||| n == "dl"@
    ||| n == "table"@
    ||| n == "hr"@
}

/// The inline elements that hold inline content: `strong`, `b`, `em`, `i`,
/// `del`, `s`, `sup` and `sub`.
pub open spec fn html_wrapper_name(n: Seq<char>) -> bool {
    ||| n == "strong"@
    ||| n == "b"@
    ||| n == "em"@
    ||| n == "i"@
    ||| n == "del"@
    ||| n == "s"@
    ||| n == "sup"@
    ||| n == "sub"@
}

/// The inline elements of strict HTML: the wrappers, `code`, `a`, `img`,
/// `br`, and a `span` that carries `data-morph-raw-format`.
pub open spec fn html_inline_element(el: XmlElement) -> bool {
    let n = el.name@;
    ||| html_wrapper_name(n)
    ||| n == "code"@
    ||| n == "a"@
    ||| n == "img"@
    ||| n == "br"@
    ||| (n == "span"@ && has_attr_named(el, "data-morph-raw-format"@))
}

/// Every element among the nodes is an inline element.
pub open spec fn html_inline_nodes(nodes: Seq<XmlNode>) -> bool {
    forall|j: int| 0 <= j < nodes.len() ==> (#[trigger] nodes[j] matches XmlNode::Element(e) ==> html_inline_element(e))
}

/// A node that may stand where blocks are read: blank text or a block
/// element.
pub open spec fn html_block_node(n: XmlNode) -> bool {
    match n {
        XmlNode::Text(t) => all_ws(t@),
        XmlNode::Element(e) => html_block_name(e.name@),
    }
}

/// Blank text.
pub open spec fn blank_node(n: XmlNode) -> bool {
    n matches XmlNode::Text(t) && all_ws(t@)
}

fn parse_block_nodes(nodes: &Vec<XmlNode>) -> (r: Result<Vec<Block>, ParseError>)
    ensures
        r is Ok ==> forall|j: int| 0 <= j < nodes@.len() ==> html_block_node(#[trigger] nodes@[j]),
        (forall|j: int| 0 <= j < nodes@.len() ==> blank_node(#[trigger] nodes@[j])) ==> (r matches Ok(b)
            && b@.len() == 0),
    decreases nodes, 2nat,
{
    let mut blocks: Vec<Block> = Vec::new();
    let mut i: usize = 0;
    while i < nodes.len()
        invariant
            i <= nodes.len(),
            forall|j: int| 0 <= j < i ==> html_block_node(#[trigger] nodes@[j]),
            (forall|j: int| 0 <= j < nodes@.len() ==> blank_node(#[trigger] nodes@[j])) ==> blocks@.len() == 0,
        decreases nodes.len() - i,
    {
        assert(decreases_to!(nodes => nodes@[i as int]));
        match &nodes[i] {
            XmlNode::Text(t) => {
                if !is_blank(t) {
                    assert(!blank_node(nodes@[i as int]));
                    return Err(
                        invalid("block-level text must be wrapped in a supported element such as <p>"),
                    );
                }
            },
            XmlNode::Element(e) => match parse_block(e) {
                Ok(b) => {
                    assert(!blank_node(nodes@[i as int]));
                    blocks.push(b);
                },
                Err(err) => return Err(err),
            },
        }
        i += 1;
    }
    Ok(blocks)
}

/// The heading level of `h1` … `h6`.
fn heading_level(name: &Vec<char>) -> (r: Option<u8>)
    ensures
        r matches Some(l) ==> 1 <= l <= 6,
        r is Some <==> heading_name(name@),
{
    if name.len() == 2 && name[0] == 'h' && '1' <= name[1] && name[1] <= '6' {
        Some((name[1] as u32 - '0' as u32) as u8)
    } else {
        None
    }
}

fn parse_block(el: &XmlElement) -> (r: Result<Block, ParseError>)
    ensures
        r is Ok ==> html_block_name(el.name@),
        r is Ok && (heading_name(el.name@) || el.name@ == "p"@) ==> html_inline_nodes(el.children@),
    decreases el, 1nat,
{
    if let Some(level) = heading_level(&el.name) {
        match validate_attrs(el, "", "", "") {
            Ok(()) => {},
            Err(e) => return Err(e),
        }
        return match parse_inline_nodes(&el.children) {
            Ok(content) => Ok(Block::Heading { level, content }),
            Err(e) => Err(e),
        };
    }
    if el.is("p") {
        match validate_attrs(el, "", "", "") {
            Ok(()) => {},
            Err(e) => return Err(e),
        }
        return match parse_inline_nodes(&el.children) {
            Ok(content) => Ok(Block::Paragraph { content }),
            Err(e) => Err(e),
        };
    }
    if el.is("pre") {
        if el.attr("data-morph-raw-format").is_some() {
            match validate_attrs(el, "data-morph-raw-format", "", "") {
                Ok(()) => {},
                Err(e) => return Err(e),
            }
            return match text_only(el) {
                Ok(content) => Ok(
                    Block::RawBlock { format: nonempty_attr(el, "data-morph-raw-format"), content },
                ),
                Err(e) => Err(e),
            };
        }
        return parse_code_block(el);
    }
    if el.is("blockquote") {
        match validate_attrs(el, "", "", "") {
            Ok(()) => {},
            Err(e) => return Err(e),
        }
        return match parse_block_nodes(&el.children) {
            Ok(children) => Ok(Block::BlockQuote { children }),
            Err(e) => Err(e),
        };
    }
    if el.is("ul") || el.is("ol") {
        return parse_list(el, el.is("ol"));
    }
    if el.is("dl") {
        return parse_description_list(el);
    }
    if el.is("table") {
        return parse_table(el);
    }
    if el.is("hr") {
        match validate_attrs(el, "", "", "") {
            Ok(()) => {},
            Err(e) => return Err(e),
        }
        return match require_empty(el) {
            Ok(()) => Ok(Block::HorizontalRule),
            Err(e) => Err(e),
        };
    }
    Err(invalid_with("unsupported strict HTML block element <", &el.name, ">"))
}

fn parse_code_block(el: &XmlElement) -> (r: Result<Block, ParseError>)
    ensures
        r matches Ok(b) ==> {
            let ps = element_positions(el.children@);
            &&& attrs_allowed(*el, ""@, ""@, ""@)
            &&& ps.len() == 1
            &&& el.children@[ps[0] as int] matches XmlNode::Element(code)
            &&& code.name@ == "code"@
            &&& b matches Block::CodeBlock { language, .. }
            &&& match language {
                Some(l) => l@.len() > 0 && attr_value(code, "class"@, "language-"@ + l@),
                None => !has_attr_named(code, "class"@),
            }
        },
{
    proof {
        reveal_strlit("language-");
    }
    match validate_attrs(el, "", "", "") {
        Ok(()) => {},
        Err(e) => return Err(e),
    }
    let kids = el.element_children();
    if kids.len() != 1 {
        return Err(invalid("<pre> must contain exactly one <code> element"));
    }
    let code = match &el.children[kids[0]] {
        XmlNode::Element(c) => c,
        XmlNode::Text(_) => return Err(invalid("<pre> must contain exactly one <code> element")),
    };
    if !code.is("code") {
        return Err(invalid("<pre> must contain exactly one <code> element"));
    }
    match validate_attrs(code, "class", "", "") {
        Ok(()) => {},
        Err(e) => return Err(e),
    }
    let language = match code.attr("class") {
        Some(class) => match strip_prefix_lit(&class, "language-") {
            Some(v) => {
                assert(class@ =~= "language-"@ + v@);
                assert(attr_value(*code, "class"@, class@));
                if v.len() > 0 {
                    Some(string_of(&v))
                } else {
                    return Err(invalid("<code> class must use 'language-NAME'"));
                }
            },
            None => return Err(invalid("<code> class must use 'language-NAME'")),
        },
        None => None,
    };
    match text_only(code) {
        Ok(content) => Ok(Block::CodeBlock { language, content }),
        Err(e) => Err(e),
    }
}

/// The number of element nodes among `s`.
pub open spec fn element_count(s: Seq<XmlNode>) -> nat
    decreases s.len(),
{
    if s.len() == 0 {
        0
    } else {
        element_count(s.drop_last()) + if s.last() is Element { 1nat } else { 0nat }
    }
}

/// A child that a list may hold: blank text or an `<li>` element.
pub open spec fn list_child(n: XmlNode) -> bool {
    match n {
        XmlNode::Text(t) => all_ws(t@),
        XmlNode::Element(c) => c.name@ == "li"@,
    }
}

fn parse_list(el: &XmlElement, ordered: bool) -> (r: Result<Block, ParseError>)
    ensures
        r is Ok ==> attrs_allowed(*el, if ordered { "start"@ } else { ""@ }, ""@, ""@),
        r is Ok ==> forall|j: int| 0 <= j < el.children@.len() ==> list_child(#[trigger] el.children@[j]),
        r matches Ok(b) ==> match b {
            Block::OrderedList { start, items } => ordered && items@.len() == element_count(el.children@)
                && (!has_attr_named(*el, "start"@) ==> start == 1) && (has_attr_named(*el, "start"@)
                ==> exists|s: Seq<char>| #[trigger] attr_value(*el, "start"@, s) && parse_unsigned_spec(
                s,
                4294967295,
            ) == Some(start as nat)),
            Block::UnorderedList { items } => !ordered && items@.len() == element_count(el.children@),
            _ => false,
        },
    decreases el, 0nat,
{
    proof {
        reveal_strlit("");
        reveal_strlit("li");
    }
    let v = if ordered {
        validate_attrs(el, "start", "", "")
    } else {
        validate_attrs(el, "", "", "")
    };
    match v {
        Ok(()) => {},
        Err(e) => return Err(e),
    }
    let ghost mut sv: Seq<char> = seq![];
    let start: u32 = match el.attr("start") {
        Some(s) => match parse_unsigned(&s, 4294967295) {
            Some(n) => {
                proof {
                    sv = s@;
                }
                assert(attr_value(*el, "start"@, sv));
                n as u32
            },
            None => return Err(invalid("ordered-list start must be a positive integer")),
        },
        None => 1,
    };
    assert(has_attr_named(*el, "start"@) ==> attr_value(*el, "start"@, sv) && parse_unsigned_spec(
        sv,
        4294967295,
    ) == Some(start as nat));
    let mut items: Vec<ListItem> = Vec::new();
    let mut i: usize = 0;
    while i < el.children.len()
        invariant
            i <= el.children.len(),
            items@.len() == element_count(el.children@.subrange(0, i as int)),
            forall|j: int| 0 <= j < i ==> list_child(#[trigger] el.children@[j]),
        decreases el.children.len() - i,
    {
        assert(el.children@.subrange(0, i + 1).drop_last() =~= el.children@.subrange(0, i as int));
        assert(decreases_to!(el => el.children));
        assert(decreases_to!(el.children => el.children@[i as int]));
        match &el.children[i] {
            XmlNode::Text(t) => {
                if !is_blank(t) {
                    return Err(invalid("lists may only contain <li> elements"));
                }
            },
            XmlNode::Element(item) => {
                if !item.is("li") {
                    return Err(invalid("lists may only contain <li> elements"));
                }
                match validate_attrs(item, "", "", "") {
                    Ok(()) => {},
                    Err(e) => return Err(e),
                }
                match parse_block_nodes(&item.children) {
                    Ok(content) => items.push(ListItem { content }),
                    Err(e) => return Err(e),
                }
            },
        }
        i += 1;
    }
    assert(el.children@.subrange(0, i as int) =~= el.children@);
    if ordered {
        Ok(Block::OrderedList { start, items })
    } else {
        Ok(Block::UnorderedList { items })
    }
}

fn parse_description_list(el: &XmlElement) -> (r: Result<Block, ParseError>)
    ensures
        r is Ok ==> attrs_allowed(*el, ""@, ""@, ""@),
        r matches Ok(b) ==> (b matches Block::DescriptionList { items } && forall|k: int|
            0 <= k < items@.len() ==> (#[trigger] items@[k]).definitions@.len() >= 1),
    decreases el, 0nat,
{
    match validate_attrs(el, "", "", "") {
        Ok(()) => {},
        Err(e) => return Err(e),
    }
    let kids = el.element_children();
    let mut items: Vec<DescriptionItem> = Vec::new();
    let mut index: usize = 0;
    while index < kids.len()
        invariant
            index <= kids.len(),
            forall|k: int| 0 <= k < kids@.len() ==> #[trigger] kids@[k] < el.children@.len(),
            forall|k: int| 0 <= k < items@.len() ==> (#[trigger] items@[k]).definitions@.len() >= 1,
        decreases kids.len() - index,
    {
        let ti = kids[index];
        assert(ti < el.children@.len());
        assert(decreases_to!(el => el.children));
        assert(decreases_to!(el.children => el.children@[ti as int]));
        let term = match &el.children[ti] {
            XmlNode::Element(t) => t,
            XmlNode::Text(_) => return Err(invalid("<dl> entries must begin with <dt>")),
        };
        if !term.is("dt") {
            return Err(invalid("<dl> entries must begin with <dt>"));
        }
        match validate_attrs(term, "", "", "") {
            Ok(()) => {},
            Err(e) => return Err(e),
        }
        index += 1;
        let ghost i0 = index;
        let mut definitions: Vec<Vec<Block>> = Vec::new();
        while index < kids.len()
            invariant
                i0 <= index <= kids.len(),
                forall|k: int| 0 <= k < kids@.len() ==> #[trigger] kids@[k] < el.children@.len(),
            decreases kids.len() - index,
        {
            let di = kids[index];
            assert(di < el.children@.len());
            assert(decreases_to!(el => el.children));
            assert(decreases_to!(el.children => el.children@[di as int]));
            let def = match &el.children[di] {
                XmlNode::Element(d) => d,
                XmlNode::Text(_) => break,
            };
            if !def.is("dd") {
                break;
            }
            match validate_attrs(def, "", "", "") {
                Ok(()) => {},
                Err(e) => return Err(e),
            }
            match parse_block_nodes(&def.children) {
                Ok(b) => definitions.push(b),
                Err(e) => return Err(e),
            }
            index += 1;
        }
        if definitions.len() == 0 {
            return Err(invalid("<dt> must be followed by at least one <dd>"));
        }
        match parse_inline_nodes(&term.children) {
            Ok(t) => items.push(DescriptionItem { term: t, definitions }),
            Err(e) => return Err(e),
        }
    }
    Ok(Block::DescriptionList { items })
}

/// The index of the first child element named `name`.
fn child_named(el: &XmlElement, name: &str) -> (r: Option<usize>)
    ensures
        r matches Some(i) ==> i < el.children@.len(),
{
    let mut i: usize = 0;
    while i < el.children.len()
        invariant
            i <= el.children.len(),
        decreases el.children.len() - i,
    {
        if let XmlNode::Element(c) = &el.children[i] {
            if c.is(name) {
                return Some(i);
            }
        }
        i += 1;
    }
    None
}

fn parse_table(el: &XmlElement) -> (r: Result<Block, ParseError>)
    decreases el, 0nat,
{
    match validate_attrs(el, "", "", "") {
        Ok(()) => {},
        Err(e) => return Err(e),
    }
    let hi = match child_named(el, "thead") {
        Some(i) => i,
        None => return Err(invalid("strict HTML tables require <thead>")),
    };
    let bi = match child_named(el, "tbody") {
        Some(i) => i,
        None => return Err(invalid("strict HTML tables require <tbody>")),
    };
    let mut i: usize = 0;
    while i < el.children.len()
        invariant
            i <= el.children.len(),
        decreases el.children.len() - i,
    {
        if let XmlNode::Element(c) = &el.children[i] {
            if !c.is("thead") && !c.is("tbody") {
                return Err(invalid("unsupported child in <table>"));
            }
        }
        i += 1;
    }
    assert(decreases_to!(el => el.children));
    assert(decreases_to!(el.children => el.children@[hi as int]));
    assert(decreases_to!(el.children => el.children@[bi as int]));
    let (thead, tbody) = match (&el.children[hi], &el.children[bi]) {
        (XmlNode::Element(h), XmlNode::Element(b)) => (h, b),
        _ => return Err(invalid("strict HTML tables require <thead>")),
    };
    match validate_attrs(thead, "", "", "") {
        Ok(()) => {},
        Err(e) => return Err(e),
    }
    match validate_attrs(tbody, "", "", "") {
        Ok(()) => {},
        Err(e) => return Err(e),
    }
    let head_rows = thead.element_children();
    if head_rows.len() != 1 {
        return Err(invalid("<thead> must contain exactly one <tr>"));
    }
    assert(decreases_to!(thead => thead.children));
    assert(decreases_to!(thead.children => thead.children@[head_rows@[0] as int]));
    let tr = match &thead.children[head_rows[0]] {
        XmlNode::Element(t) => t,
        XmlNode::Text(_) => return Err(invalid("<thead> must contain exactly one <tr>")),
    };
    if !tr.is("tr") {
        return Err(invalid("<thead> must contain exactly one <tr>"));
    }
    let (headers, alignments) = match parse_table_row(tr, "th", true) {
        Ok(x) => x,
        Err(e) => return Err(e),
    };
    let mut rows: Vec<Vec<TableCell>> = Vec::new();
    let mut r: usize = 0;
    while r < tbody.children.len()
        invariant
            r <= tbody.children.len(),
        decreases tbody.children.len() - r,
    {
        assert(decreases_to!(tbody => tbody.children));
        assert(decreases_to!(tbody.children => tbody.children@[r as int]));
        if let XmlNode::Element(row) = &tbody.children[r] {
            if !row.is("tr") {
                return Err(invalid("<tbody> may only contain <tr>"));
            }
            match parse_table_row(row, "td", false) {
                Ok((cells, _)) => rows.push(cells),
                Err(e) => return Err(e),
            }
        }
        r += 1;
    }
    Ok(Block::Table { headers, alignments, rows })
}

fn parse_table_row(el: &XmlElement, expected: &str, collect: bool) -> (r: Result<(Vec<TableCell>, Vec<ColumnAlignment>), ParseError>)
    ensures
        r is Ok ==> attrs_allowed(*el, ""@, ""@, ""@),
        r is Ok ==> forall|j: int| 0 <= j < el.children@.len() ==> (#[trigger] el.children@[j] matches XmlNode::Element(c)
            ==> c.name@ == expected@),
        r matches Ok((cells, aligns)) ==> cells@.len() == element_count(el.children@) && aligns@.len() == (
        if collect {
            element_count(el.children@)
        } else {
            0
        }) && forall|k: int| 0 <= k < cells@.len() ==> (#[trigger] cells@[k]).colspan >= 1
            && cells@[k].rowspan >= 1,
    decreases el, 0nat,
{
    match validate_attrs(el, "", "", "") {
        Ok(()) => {},
        Err(e) => return Err(e),
    }
    let mut cells: Vec<TableCell> = Vec::new();
    let mut alignments: Vec<ColumnAlignment> = Vec::new();
    let mut i: usize = 0;
    while i < el.children.len()
        invariant
            i <= el.children.len(),
            cells@.len() == element_count(el.children@.subrange(0, i as int)),
            alignments@.len() == (if collect {
                element_count(el.children@.subrange(0, i as int))
            } else {
                0
            }),
            forall|k: int| 0 <= k < cells@.len() ==> (#[trigger] cells@[k]).colspan >= 1
                && cells@[k].rowspan >= 1,
            forall|j: int| 0 <= j < i ==> (#[trigger] el.children@[j] matches XmlNode::Element(c)
                ==> c.name@ == expected@),
        decreases el.children.len() - i,
    {
        assert(el.children@.subrange(0, i + 1).drop_last() =~= el.children@.subrange(0, i as int));
        assert(decreases_to!(el => el.children));
        assert(decreases_to!(el.children => el.children@[i as int]));
        if let XmlNode::Element(cell) = &el.children[i] {
            if !cell.is(expected) {
                let mut m = chars_of("<tr> expected <");
                push_str(&mut m, expected);
                push_str(&mut m, ">, found <");
                push_all(&mut m, &cell.name);
                m.push('>');
                return Err(ParseError::InvalidInput(string_of(&m)));
            }
            match validate_attrs(cell, "colspan", "rowspan", "align") {
                Ok(()) => {},
                Err(e) => return Err(e),
            }
            let colspan = match positive_attr(cell, "colspan") {
                Ok(Some(n)) => n,
                Ok(None) => 1,
                Err(e) => return Err(e),
            };
            let rowspan = match positive_attr(cell, "rowspan") {
                Ok(Some(n)) => n,
                Ok(None) => 1,
                Err(e) => return Err(e),
            };
            if collect {
                let a = match cell.attr("align") {
                    Some(v) => {
                        if eq_lit(&v, "left") {
                            ColumnAlignment::Left
                        } else if eq_lit(&v, "center") {
                            ColumnAlignment::Center
                        } else if eq_lit(&v, "right") {
                            ColumnAlignment::Right
                        } else {
                            return Err(invalid_with("unsupported alignment '", &v, "'"));
                        }
                    },
                    None => ColumnAlignment::Default,
                };
                alignments.push(a);
            }
            match parse_inline_nodes(&cell.children) {
                Ok(content) => cells.push(TableCell::with_span(content, colspan, rowspan)),
                Err(e) => return Err(e),
            }
        }
        i += 1;
    }
    assert(el.children@.subrange(0, i as int) =~= el.children@);
    Ok((cells, alignments))
}

/// Appends text, a soft line break standing for each newline.
/// `out` is what the lines `parts` read as: a soft break between lines, and
/// each line that is not empty as text.
pub open spec fn text_lines_as(out: Seq<Inline>, parts: Seq<Seq<char>>) -> bool
    decreases parts.len(),
{
    if parts.len() == 0 {
        out.len() == 0
    } else {
        let last = parts.last();
        let brk: int = if parts.len() > 1 { 1 } else { 0 };
        let txt: int = if last.len() > 0 { 1 } else { 0 };
        let n = brk + txt;
        &&& out.len() >= n
        &&& text_lines_as(out.subrange(0, out.len() - n), parts.drop_last())
        &&& (brk == 1 ==> out[out.len() - n] is SoftLineBreak)
        &&& (txt == 1 ==> (out.last() matches Inline::Text(s) && s@ == last))
    }
}

pub(crate) fn append_text(inlines: &mut Vec<Inline>, text: &Vec<char>)
    ensures
        final(inlines)@.len() >= old(inlines)@.len(),
        final(inlines)@.subrange(0, old(inlines)@.len() as int) == old(inlines)@,
        text_lines_as(
            final(inlines)@.subrange(old(inlines)@.len() as int, final(inlines)@.len() as int),
            split_spec(text@, '\n'),
        ),
{
    let ghost start = inlines@.len() as int;
    let parts = split_char(text, '\n');
    let ghost ps = split_spec(text@, '\n');
    let mut k: usize = 0;
    assert(inlines@.subrange(start, inlines@.len() as int) =~= seq![]);
    assert(ps.subrange(0, 0) =~= seq![]);
    while k < parts.len()
        invariant
            k <= parts.len(),
            views(parts@) == ps,
            start == old(inlines)@.len(),
            inlines@.len() >= start,
            inlines@.subrange(0, start) == old(inlines)@,
            text_lines_as(inlines@.subrange(start, inlines@.len() as int), ps.subrange(0, k as int)),
        decreases parts.len() - k,
    {
        let ghost before = inlines@;
        if k > 0 {
            inlines.push(Inline::SoftLineBreak);
        }
        if parts[k].len() > 0 {
            inlines.push(Inline::Text(string_of(&parts[k])));
        }
        k += 1;
        proof {
            let sub = ps.subrange(0, k as int);
            assert(sub.drop_last() =~= ps.subrange(0, k - 1));
            assert(sub.last() == parts@[k - 1]@);
            let out = inlines@.subrange(start, inlines@.len() as int);
            let brk: int = if sub.len() > 1 { 1 } else { 0 };
            let txt: int = if sub.last().len() > 0 { 1 } else { 0 };
            assert(inlines@.len() == before.len() + brk + txt);
            assert(out.subrange(0, out.len() - (brk + txt)) =~= before.subrange(start, before.len() as int));
            assert(inlines@.subrange(0, start) =~= before.subrange(0, start));
        }
    }
    assert(ps.subrange(0, k as int) =~= ps);
}

fn parse_inline_nodes(nodes: &Vec<XmlNode>) -> (r: Result<Vec<Inline>, ParseError>)
    ensures
        r is Ok ==> html_inline_nodes(nodes@),
    decreases nodes, 2nat,
{
    let mut inlines: Vec<Inline> = Vec::new();
    let mut i: usize = 0;
    while i < nodes.len()
        invariant
            i <= nodes.len(),
            forall|j: int| 0 <= j < i ==> (#[trigger] nodes@[j] matches XmlNode::Element(e) ==> html_inline_element(e)),
        decreases nodes.len() - i,
    {
        assert(decreases_to!(nodes => nodes@[i as int]));
        match &nodes[i] {
            XmlNode::Text(t) => append_text(&mut inlines, t),
            XmlNode::Element(e) => match parse_inline(e) {
                Ok(inl) => inlines.push(inl),
                Err(err) => return Err(err),
            },
        }
        i += 1;
    }
    Ok(inlines)
}

/// Bold (or italic) content that is exactly one italic (or bold) element
/// becomes bold-italic.
fn emphasis(mut content: Vec<Inline>, bold: bool) -> (r: Inline)
    ensures
        emphasis_of(content@, bold, r),
{
    let ghost c0 = content@;
    if content.len() == 1 {
        let only = content.pop().unwrap();
        match only {
            Inline::Italic(inner) if bold => return Inline::BoldItalic(inner),
            Inline::Bold(inner) if !bold => return Inline::BoldItalic(inner),
            other => {
                content.push(other);
                assert(content@ =~= c0);
            },
        }
    }
    if bold {
        Inline::Bold(content)
    } else {
        Inline::Italic(content)
    }
}

fn parse_inline(el: &XmlElement) -> (r: Result<Inline, ParseError>)
    ensures
        r is Ok ==> html_inline_element(*el),
        r is Ok && html_wrapper_name(el.name@) ==> html_inline_nodes(el.children@),
    decreases el, 1nat,
{
    let strong = el.is("strong") || el.is("b");
    let em = el.is("em") || el.is("i");
    let wrap = if el.is("del") || el.is("s") {
        1u8
    } else if el.is("sup") {
        2
    } else if el.is("sub") {
        3
    } else {
        0
    };
    if strong || em || wrap > 0 {
        match validate_attrs(el, "", "", "") {
            Ok(()) => {},
            Err(e) => return Err(e),
        }
        let content = match parse_inline_nodes(&el.children) {
            Ok(c) => c,
            Err(e) => return Err(e),
        };
        return Ok(
            if strong {
                emphasis(content, true)
            } else if em {
                emphasis(content, false)
            } else if wrap == 1 {
                Inline::Strikethrough(content)
            } else if wrap == 2 {
                Inline::Superscript(content)
            } else {
                Inline::Subscript(content)
            },
        );
    }
    if el.is("code") {
        match validate_attrs(el, "", "", "") {
            Ok(()) => {},
            Err(e) => return Err(e),
        }
        return match text_only(el) {
            Ok(t) => Ok(Inline::InlineCode(t)),
            Err(e) => Err(e),
        };
    }
    if el.is("a") {
        return parse_link(el);
    }
    if el.is("img") {
        return parse_image(el, None);
    }
    if el.is("br") {
        match validate_attrs(el, "", "", "") {
            Ok(()) => {},
            Err(e) => return Err(e),
        }
        return match require_empty(el) {
            Ok(()) => Ok(Inline::HardLineBreak),
            Err(e) => Err(e),
        };
    }
    if el.is("span") && el.attr("data-morph-raw-format").is_some() {
        match validate_attrs(el, "data-morph-raw-format", "", "") {
            Ok(()) => {},
            Err(e) => return Err(e),
        }
        return match text_only(el) {
            Ok(content) => Ok(
                Inline::RawInline { format: nonempty_attr(el, "data-morph-raw-format"), content },
            ),
            Err(e) => Err(e),
        };
    }
    Err(invalid_with("unsupported strict HTML inline element <", &el.name, ">"))
}

fn parse_link(el: &XmlElement) -> (r: Result<Inline, ParseError>)
    ensures
        !attrs_allowed(*el, "href"@, "title"@, ""@) || !has_attr_named(*el, "href"@) ==> r is Err,
        r matches Ok(x) ==> match x {
            Inline::Link { url, title, .. } => attr_value(*el, "href"@, url@) && (title matches Some(t)
                ==> attr_value(*el, "title"@, t@)) && (title is None ==> !has_attr_named(*el, "title"@)),
            Inline::Image { link: Some(u), .. } => attr_value(*el, "href"@, u@),
            _ => false,
        },
    decreases el, 0nat,
{
    match validate_attrs(el, "href", "title", "") {
        Ok(()) => {},
        Err(e) => return Err(e),
    }
    let url = match el.attr("href") {
        Some(u) => string_of(&u),
        None => return Err(invalid("<a> requires href")),
    };
    let mut content = match parse_inline_nodes(&el.children) {
        Ok(c) => c,
        Err(e) => return Err(e),
    };
    if content.len() == 1 {
        let only = content.pop().unwrap();
        match only {
            Inline::Image { url: image_url, alt, title, link: None } => {
                return Ok(Inline::Image { url: image_url, alt, title, link: Some(url) });
            },
            other => content.push(other),
        }
    }
    let title = match el.attr("title") {
        Some(t) => Some(string_of(&t)),
        None => None,
    };
    Ok(Inline::Link { url, text: content, title })
}

fn parse_image(el: &XmlElement, link: Option<String>) -> (r: Result<Inline, ParseError>)
    ensures
        (r is Ok) == (attrs_allowed(*el, "src"@, "alt"@, "title"@) && !has_meaningful_spec(el.children@)
            && has_attr_named(*el, "src"@)),
        r matches Ok(x) ==> match x {
            Inline::Image { url, alt, title, link: l } => l == link && attr_value(*el, "src"@, url@) && (
            has_attr_named(*el, "alt"@) ==> alt@.len() == 1 && (alt@[0] matches Inline::Text(a) && attr_value(
                *el,
                "alt"@,
                a@,
            ))) && (!has_attr_named(*el, "alt"@) ==> alt@.len() == 0) && (title matches Some(t) ==> attr_value(
                *el,
                "title"@,
                t@,
            )) && (title is None ==> !has_attr_named(*el, "title"@)),
            _ => false,
        },
{
    match validate_attrs(el, "src", "alt", "title") {
        Ok(()) => {},
        Err(e) => return Err(e),
    }
    match require_empty(el) {
        Ok(()) => {},
        Err(e) => return Err(e),
    }
    let url = match el.attr("src") {
        Some(u) => string_of(&u),
        None => return Err(invalid("<img> requires src")),
    };
    let mut alt: Vec<Inline> = Vec::new();
    if let Some(a) = el.attr("alt") {
        alt.push(Inline::Text(string_of(&a)));
    }
    let title = match el.attr("title") {
        Some(t) => Some(string_of(&t)),
        None => None,
    };
    Ok(Inline::Image { url, alt, title, link })
}

} // verus!
