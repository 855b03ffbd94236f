//! A strict XML reader shared by the HTML and DocBook readers, and the
//! escaping their writers use.
use vstd::prelude::*;

use crate::error::ParseError;
use crate::std_calls::char_from_u32;
use crate::text::{is_ws_spec, is_digit_spec, index_of_char, lemma_index_of_char_unique, byte_len, chars_of, chars_of_string, copy, eq, eq_lit, find_char_from, find_from, first_is, is_ascii_alnum, is_blank, is_ws, matches_at, occurs_at, parse_unsigned, push_all, push_decimal, push_str, skip, starts_with_lit, string_of, substring};

verus! {

/// A node of an XML tree: an element or a run of (decoded) text.
pub enum XmlNode {
    Element(XmlElement),
    Text(Vec<char>),
}

pub struct XmlElement {
    pub name: Vec<char>,
    pub attributes: Vec<(Vec<char>, Vec<char>)>,
    pub children: Vec<XmlNode>,
}

/// The element has an attribute `name` whose value is `v`.
pub open spec fn attr_value(el: XmlElement, name: Seq<char>, v: Seq<char>) -> bool {
    exists|k: int| 0 <= k < el.attributes@.len() && (#[trigger] el.attributes@[k]).0@ == name && el.attributes@[k].1@ == v
}

/// The element has an attribute `name`.
pub open spec fn has_attr_named(el: XmlElement, name: Seq<char>) -> bool {
    exists|k: int| 0 <= k < el.attributes@.len() && (#[trigger] el.attributes@[k]).0@ == name
}

/// Every attribute of the element is one of the allowed names (an empty
/// name allows nothing).
pub open spec fn attrs_allowed(el: XmlElement, a: Seq<char>, b: Seq<char>, c: Seq<char>) -> bool {
    forall|k: int| 0 <= k < el.attributes@.len() ==> attr_allowed(#[trigger] el.attributes@[k].0@, a, b, c)
}

/// An attribute named `n` is one of the allowed names (an empty name allows
/// nothing).
pub open spec fn attr_allowed(n: Seq<char>, a: Seq<char>, b: Seq<char>, c: Seq<char>) -> bool {
    (a.len() > 0 && n == a) || (b.len() > 0 && n == b) || (c.len() > 0 && n == c)
}

impl XmlElement {
    /// The value of the first attribute named `name`.
    pub fn attr(&self, name: &str) -> (r: Option<Vec<char>>)
        ensures
            r matches Some(v) ==> exists|k: int|
                0 <= k < self.attributes@.len() && self.attributes@[k].0@ == name@ && self.attributes@[k].1@ == v@
                    && forall|j: int| 0 <= j < k ==> self.attributes@[j].0@ != name@,
            r is None ==> forall|k: int| 0 <= k < self.attributes@.len() ==> self.attributes@[k].0@ != name@,
    {
        let mut k: usize = 0;
        while k < self.attributes.len()
            invariant
                k <= self.attributes@.len(),
                forall|j: int| 0 <= j < k ==> self.attributes@[j].0@ != name@,
            decreases self.attributes.len() - k,
        {
            if eq_lit(&self.attributes[k].0, name) {
                return Some(copy(&self.attributes[k].1));
            }
            k += 1;
        }
        None
    }

    /// Whether the element's name is `name`.
    pub fn is(&self, name: &str) -> (b: bool)
        ensures
            b == (self.name@ == name@),
    {
        eq_lit(&self.name, name)
    }

    /// The element children, given by their positions in `children`, in
    /// order (text children are left out).
    pub fn element_children(&self) -> (r: Vec<usize>)
        ensures
            r@ == element_positions(self.children@),
            forall|k: int| 0 <= k < r@.len() ==> #[trigger] r@[k] < self.children@.len(),
            forall|k: int| 0 <= k < r@.len() ==> self.children@[#[trigger] r@[k] as int] is Element,
    {
        let mut r: Vec<usize> = Vec::new();
        let mut i: usize = 0;
        while i < self.children.len()
            invariant
                i <= self.children.len(),
                r@ == element_positions(self.children@.subrange(0, i as int)),
                forall|k: int| 0 <= k < r@.len() ==> #[trigger] r@[k] < i,
                forall|k: int| 0 <= k < r@.len() ==> self.children@[#[trigger] r@[k] as int] is Element,
            decreases self.children.len() - i,
        {
            proof {
                assert(self.children@.subrange(0, i + 1).drop_last() =~= self.children@.subrange(0, i as int));
            }
            if let XmlNode::Element(_) = &self.children[i] {
                r.push(i);
            }
            i += 1;
        }
        proof {
            assert(self.children@.subrange(0, self.children@.len() as int) =~= self.children@);
        }
        r
    }
}

/// The positions of the elements among `nodes`, in order.
pub open spec fn element_positions(nodes: Seq<XmlNode>) -> Seq<usize>
    decreases nodes.len(),
{
    if nodes.len() == 0 {
        seq![]
    } else {
        let r = element_positions(nodes.drop_last());
        if nodes.last() is Element {
            r.push((nodes.len() - 1) as usize)
        } else {
            r
        }
    }
}

/// Parses XML text into nodes; with `html_void`, `br`, `hr`, `img`, `meta`
/// and `link` elements have no end tag.
/// Text without `<`: there is no tag, comment or instruction in it.
pub open spec fn no_tag_from(s: Seq<char>, k: int) -> bool {
    forall|j: int| k <= j < s.len() ==> #[trigger] s[j] != '<'
}

/// `nodes` is what a run of text that decodes to `t` reads as: nothing when
/// `t` is empty, else one text node holding `t`.
pub open spec fn text_nodes(nodes: Seq<XmlNode>, t: Seq<char>) -> bool {
    if t.len() == 0 {
        nodes.len() == 0
    } else {
        nodes.len() == 1 && match nodes[0] {
            XmlNode::Text(v) => v@ == t,
            _ => false,
        }
    }
}

/// Reading a text without `<`: its decoded characters as one text run, or an
/// error where decoding fails.
pub open spec fn reads_as_text(r: Result<Vec<XmlNode>, ParseError>, text: Seq<char>) -> bool {
    match decode_spec(text) {
        Ok(t) => r matches Ok(nodes) && text_nodes(nodes@, t),
        Err(_) => r is Err,
    }
}

proof fn lemma_no_markup_at(s: Seq<char>, p: int)
    requires
        0 <= p < s.len(),
        s[p] != '<',
    ensures
        !occurs_at(s, "<!--"@, p),
        !occurs_at(s, "<?"@, p),
        !occurs_at(s, "<!DOCTYPE"@, p),
        !occurs_at(s, "<!doctype"@, p),
        !occurs_at(s, "</"@, p),
{
    reveal_strlit("<!--");
    reveal_strlit("<?");
    reveal_strlit("<!DOCTYPE");
    reveal_strlit("<!doctype");
    reveal_strlit("</");
    if occurs_at(s, "<!--"@, p) {
        assert(s.subrange(p, p + 4)[0] == s[p]);
    }
    if occurs_at(s, "<?"@, p) {
        assert(s.subrange(p, p + 2)[0] == s[p]);
    }
    if occurs_at(s, "<!DOCTYPE"@, p) {
        assert(s.subrange(p, p + 9)[0] == s[p]);
    }
    if occurs_at(s, "<!doctype"@, p) {
        assert(s.subrange(p, p + 9)[0] == s[p]);
    }
    if occurs_at(s, "</"@, p) {
        assert(s.subrange(p, p + 2)[0] == s[p]);
    }
}

/// Reads XML nodes. A text without `<` is read as its decoded characters.
pub(crate) fn parse_xml(input: &str, html_void: bool) -> (r: Result<Vec<XmlNode>, ParseError>)
    ensures
        no_tag_from(input@, 0) ==> reads_as_text(r, input@),
{
    let s = chars_of(input);
    let mut pos: usize = 0;
    let r = parse_nodes(&s, &mut pos, None, html_void);
    assert(s@.subrange(0, s@.len() as int) =~= s@);
    r
}

/// An error at character index `pos`, reported at its byte offset.
fn error_at(s: &Vec<char>, pos: usize, message: Vec<char>) -> ParseError {
    let mut m = message;
    push_str(&mut m, " at byte ");
    let p = if pos <= s.len() {
        pos
    } else {
        s.len()
    };
    push_decimal(&mut m, byte_len(&substring(s, 0, p)) as u64);
    ParseError::InvalidInput(string_of(&m))
}

fn msg(text: &str) -> (m: Vec<char>)
    ensures
        m@ == text@,
{
    chars_of(text)
}

/// `text` with `name` written inside the given open and close strings.
fn msg_with(open: &str, name: &Vec<char>, close: &str) -> (m: Vec<char>)
    ensures
        m@ == open@ + name@ + close@,
{
    let mut m = chars_of(open);
    push_all(&mut m, name);
    push_str(&mut m, close);
    m
}

fn at(s: &Vec<char>, pos: usize, lit: &str) -> (b: bool)
    ensures
        b ==> pos + lit@.len() <= s@.len(),
        b == (pos <= s@.len() && occurs_at(s@, lit@, pos as int)),
{
    pos <= s.len() && matches_at(s, &chars_of(lit), pos)
}

fn parse_nodes(s: &Vec<char>, pos: &mut usize, closing: Option<&Vec<char>>, html_void: bool) -> (r: Result<Vec<XmlNode>, ParseError>)
    requires
        *old(pos) <= s@.len(),
    ensures
        *old(pos) <= *final(pos) <= s@.len(),
        closing is None && no_tag_from(s@, *old(pos) as int) ==> reads_as_text(
            r,
            s@.subrange(*old(pos) as int, s@.len() as int),
        ),
    decreases s@.len() - *old(pos), 1nat,
{
    let ghost plain = closing is None && no_tag_from(s@, *old(pos) as int);
    let ghost p0 = *pos as int;
    let mut nodes: Vec<XmlNode> = Vec::new();
    loop
        invariant
            *old(pos) <= *pos <= s@.len(),
            p0 == *old(pos),
            plain == (closing is None && no_tag_from(s@, p0)),
            plain ==> (*pos == p0 && nodes@.len() == 0) || (*pos == s@.len() && (decode_spec(
                s@.subrange(p0, s@.len() as int),
            ) matches Ok(t) && text_nodes(nodes@, t))),
        ensures
            plain ==> *pos == s@.len(),
        decreases s@.len() - *pos,
    {
        let p = *pos;
        proof {
            if plain && p < s@.len() {
                assert(p == p0);
                assert(s@[p as int] != '<');
                lemma_no_markup_at(s@, p as int);
            }
        }
        if p >= s.len() {
            if let Some(tag) = closing {
                return Err(error_at(s, p, msg_with("unterminated <", tag, "> element")));
            }
            break;
        }
        if at(s, p, "<!--") {
            match skip_until(s, p, "-->") {
                Some(e) => {
                    *pos = e;
                    continue;
                },
                None => return Err(error_at(s, p, msg("unterminated comment"))),
            }
        }
        if at(s, p, "<?") {
            match skip_until(s, p, "?>") {
                Some(e) => {
                    *pos = e;
                    continue;
                },
                None => return Err(error_at(s, p, msg("unterminated processing instruction"))),
            }
        }
        if at(s, p, "<!DOCTYPE") || at(s, p, "<!doctype") {
            match skip_until(s, p, ">") {
                Some(e) => {
                    *pos = e;
                    continue;
                },
                None => return Err(error_at(s, p, msg("unterminated doctype"))),
            }
        }
        if at(s, p, "</") {
            let name = match parse_end_tag(s, pos) {
                Ok(n) => n,
                Err(e) => return Err(e),
            };
            match closing {
                Some(expected) => {
                    if eq(&name, expected) {
                        break;
                    }
                    let mut m = msg_with("expected </", expected, ">, found </");
                    push_all(&mut m, &name);
                    m.push('>');
                    return Err(error_at(s, *pos, m));
                },
                None => return Err(error_at(s, *pos, msg_with("unexpected </", &name, ">"))),
            }
        }
        if s[p] == '<' {
            match parse_element(s, pos, html_void) {
                Ok(e) => nodes.push(XmlNode::Element(e)),
                Err(e) => return Err(e),
            }
        } else {
            let end = match find_char_from(s, '<', p) {
                Some(e) => e,
                None => s.len(),
            };
            let text = match decode_entities(&substring(s, p, end)) {
                Ok(t) => t,
                Err(m) => return Err(error_at(s, p, m)),
            };
            *pos = end;
            if text.len() > 0 {
                nodes.push(XmlNode::Text(text));
            }
            proof {
                if plain {
                    assert(end == s@.len());
                }
            }
        }
    }
    proof {
        if plain && *pos == p0 && nodes@.len() == 0 {
            assert(s@.subrange(p0, s@.len() as int) =~= Seq::<char>::empty());
        }
    }
    Ok(nodes)
}

/// The index after the first `delim` at or after `p`.
fn skip_until(s: &Vec<char>, p: usize, delim: &str) -> (r: Option<usize>)
    requires
        p < s@.len(),
    ensures
        r matches Some(e) ==> p < e <= s@.len(),
{
    let d = chars_of(delim);
    if d.len() == 0 {
        return None;
    }
    match find_from(s, &d, p) {
        Some(i) => Some(i + d.len()),
        None => None,
    }
}

/// A character of an element or attribute name.
pub open spec fn xml_name_char(c: char) -> bool {
    is_digit_spec(c) || ('a' <= c && c <= 'z') || ('A' <= c && c <= 'Z') || c == '-' || c == '_'
        || c == ':' || c == '.'
}

/// The end of the run of name characters from `i`.
pub open spec fn xml_name_end(s: Seq<char>, i: int) -> int
    decreases s.len() - i,
{
    if 0 <= i < s.len() && xml_name_char(s[i]) {
        xml_name_end(s, i + 1)
    } else {
        i
    }
}

/// The end of the run of whitespace from `i`.
pub open spec fn xml_ws_end(s: Seq<char>, i: int) -> int
    decreases s.len() - i,
{
    if 0 <= i < s.len() && is_ws_spec(s[i]) {
        xml_ws_end(s, i + 1)
    } else {
        i
    }
}

fn is_name_char(c: char) -> (b: bool)
    ensures
        b == xml_name_char(c),
{
    is_ascii_alnum(c) || c == '-' || c == '_' || c == ':' || c == '.'
}

fn parse_name(s: &Vec<char>, pos: &mut usize) -> (r: Result<Vec<char>, ParseError>)
    requires
        *old(pos) <= s@.len(),
    ensures
        *old(pos) <= *final(pos) <= s@.len(),
        r is Ok ==> *old(pos) < *final(pos),
        (r is Ok) == (xml_name_end(s@, *old(pos) as int) > *old(pos)),
        r matches Ok(n) ==> *final(pos) == xml_name_end(s@, *old(pos) as int) && n@ == s@.subrange(
            *old(pos) as int,
            *final(pos) as int,
        ),
        r is Err ==> *final(pos) == *old(pos),
{
    let start = *pos;
    let mut e = start;
    while e < s.len() && is_name_char(s[e])
        invariant
            start <= e <= s@.len(),
            xml_name_end(s@, start as int) == xml_name_end(s@, e as int),
        decreases s.len() - e,
    {
        e += 1;
    }
    if e == start {
        return Err(error_at(s, start, msg("expected an element or attribute name")));
    }
    *pos = e;
    Ok(substring(s, start, e))
}

fn skip_whitespace(s: &Vec<char>, pos: &mut usize)
    requires
        *old(pos) <= s@.len(),
    ensures
        *old(pos) <= *final(pos) <= s@.len(),
        *final(pos) == xml_ws_end(s@, *old(pos) as int),
{
    while *pos < s.len() && is_ws(s[*pos])
        invariant
            *old(pos) <= *pos <= s@.len(),
            xml_ws_end(s@, *old(pos) as int) == xml_ws_end(s@, *pos as int),
        decreases s.len() - *pos,
    {
        *pos = *pos + 1;
    }
}

fn expect(s: &Vec<char>, pos: &mut usize, lit: &str) -> (r: Result<(), ParseError>)
    requires
        *old(pos) <= s@.len(),
    ensures
        *old(pos) <= *final(pos) <= s@.len(),
        r is Ok ==> *old(pos) + lit@.len() == *final(pos),
        (r is Ok) == occurs_at(s@, lit@, *old(pos) as int),
        r is Err ==> *final(pos) == *old(pos),
{
    let l = chars_of(lit);
    let p = *pos;
    if !matches_at(s, &l, p) {
        return Err(error_at(s, p, msg_with("expected '", &l, "'")));
    }
    assert(occurs_at(s@, l@, p as int));
    assert(p + l@.len() <= s.len());
    *pos = p + l.len();
    Ok(())
}

/// An end tag at `p`: `</`, a name, optional whitespace and `>`.
pub open spec fn end_tag_at(s: Seq<char>, p: int) -> bool {
    let e = xml_name_end(s, p + 2);
    occurs_at(s, "</"@, p) && e > p + 2 && occurs_at(s, ">"@, xml_ws_end(s, e))
}

fn parse_end_tag(s: &Vec<char>, pos: &mut usize) -> (r: Result<Vec<char>, ParseError>)
    requires
        *old(pos) <= s@.len(),
    ensures
        *old(pos) <= *final(pos) <= s@.len(),
        (r is Ok) == end_tag_at(s@, *old(pos) as int),
        r matches Ok(n) ==> n@ == s@.subrange(
            *old(pos) + 2,
            xml_name_end(s@, *old(pos) + 2),
        ) && *final(pos) == xml_ws_end(s@, xml_name_end(s@, *old(pos) + 2)) + 1,
{
    proof {
        reveal_strlit("</");
        reveal_strlit(">");
    }
    match expect(s, pos, "</") {
        Ok(()) => {},
        Err(e) => return Err(e),
    }
    let name = match parse_name(s, pos) {
        Ok(n) => n,
        Err(e) => return Err(e),
    };
    skip_whitespace(s, pos);
    match expect(s, pos, ">") {
        Ok(()) => Ok(name),
        Err(e) => Err(e),
    }
}

fn has_attr(attributes: &Vec<(Vec<char>, Vec<char>)>, key: &Vec<char>) -> bool {
    let mut k: usize = 0;
    while k < attributes.len()
        invariant
            k <= attributes.len(),
        decreases attributes.len() - k,
    {
        if eq(&attributes[k].0, key) {
            return true;
        }
        k += 1;
    }
    false
}

fn is_void(name: &Vec<char>) -> bool {
    eq_lit(name, "br") || eq_lit(name, "hr") || eq_lit(name, "img") || eq_lit(name, "meta")
        || eq_lit(name, "link")
}

fn parse_element(s: &Vec<char>, pos: &mut usize, html_void: bool) -> (r: Result<XmlElement, ParseError>)
    requires
        *old(pos) < s@.len(),
    ensures
        *old(pos) <= *final(pos) <= s@.len(),
        r is Ok ==> *old(pos) < *final(pos),
        r is Ok ==> occurs_at(s@, "<"@, *old(pos) as int) && xml_name_end(s@, *old(pos) + 1) > *old(pos) + 1,
        r matches Ok(el) ==> el.name@ == s@.subrange(*old(pos) + 1, xml_name_end(s@, *old(pos) + 1)),
    decreases s@.len() - *old(pos), 0nat,
{
    proof {
        reveal_strlit("<");
        reveal_strlit("/>");
    }
    match expect(s, pos, "<") {
        Ok(()) => {},
        Err(e) => return Err(e),
    }
    let ghost p0 = *old(pos) as int;
    let name = match parse_name(s, pos) {
        Ok(n) => n,
        Err(e) => return Err(e),
    };
    assert(occurs_at(s@, "<"@, p0) && xml_name_end(s@, p0 + 1) > p0 + 1);
    assert(name@ == s@.subrange(p0 + 1, xml_name_end(s@, p0 + 1)));
    let mut attributes: Vec<(Vec<char>, Vec<char>)> = Vec::new();
    loop
        invariant
            *old(pos) < *pos <= s@.len(),
            p0 == *old(pos) as int,
            occurs_at(s@, "<"@, p0) && xml_name_end(s@, p0 + 1) > p0 + 1,
            name@ == s@.subrange(p0 + 1, xml_name_end(s@, p0 + 1)),
        decreases s@.len() - *pos,
    {
        skip_whitespace(s, pos);
        let p = *pos;
        proof {
            reveal_strlit("/>");
        }
        if at(s, p, "/>") {
            assert(p + 2 <= s.len());
            *pos = p + 2;
            return Ok(XmlElement { name, attributes, children: Vec::new() });
        }
        if p < s.len() && s[p] == '>' {
            *pos = p + 1;
            break;
        }
        let key = match parse_name(s, pos) {
            Ok(k) => k,
            Err(e) => return Err(e),
        };
        if has_attr(&attributes, &key) {
            return Err(error_at(s, *pos, msg_with("duplicate '", &key, "' attribute")));
        }
        skip_whitespace(s, pos);
        match expect(s, pos, "=") {
            Ok(()) => {},
            Err(e) => return Err(e),
        }
        skip_whitespace(s, pos);
        let q = *pos;
        if q >= s.len() || (s[q] != '"' && s[q] != '\'') {
            return Err(error_at(s, q, msg("attribute values must be quoted")));
        }
        let quote = s[q];
        *pos = q + 1;
        let end = match find_char_from(s, quote, q + 1) {
            Some(e) => e,
            None => return Err(error_at(s, q + 1, msg("unterminated attribute value"))),
        };
        let value = match decode_entities(&substring(s, q + 1, end)) {
            Ok(v) => v,
            Err(m) => return Err(error_at(s, q + 1, m)),
        };
        *pos = end + 1;
        attributes.push((key, value));
    }
    if html_void && is_void(&name) {
        return Ok(XmlElement { name, attributes, children: Vec::new() });
    }
    let children = match parse_nodes(s, pos, Some(&name), html_void) {
        Ok(c) => c,
        Err(e) => return Err(e),
    };
    Ok(XmlElement { name, attributes, children })
}

pub open spec fn is_hex_digit(c: char) -> bool {
    ('0' <= c && c <= '9') || ('a' <= c && c <= 'f') || ('A' <= c && c <= 'F')
}

pub open spec fn hex_digit_value(c: char) -> nat {
    if '0' <= c && c <= '9' {
        (c as u32 - '0' as u32) as nat
    } else if 'a' <= c && c <= 'f' {
        (c as u32 - 'a' as u32 + 10) as nat
    } else {
        (c as u32 - 'A' as u32 + 10) as nat
    }
}

/// The value of a string of hexadecimal digits.
pub open spec fn hex_value(s: Seq<char>) -> nat
    decreases s.len(),
{
    if s.len() == 0 {
        0
    } else {
        hex_value(s.drop_last()) * 16 + hex_digit_value(s.last())
    }
}

/// `s` without one leading `+`.
pub open spec fn unsigned_body(s: Seq<char>) -> Seq<char> {
    if s.len() > 0 && s[0] == '+' {
        s.drop_first()
    } else {
        s
    }
}

pub open spec fn all_hex(d: Seq<char>) -> bool {
    forall|i: int| 0 <= i < d.len() ==> is_hex_digit(#[trigger] d[i])
}

/// What `u32::from_str_radix(s, 16)` reads: an optional `+` and one or more
/// hexadecimal digits, within `u32`.
pub open spec fn hex_spec(s: Seq<char>) -> Option<nat> {
    let d = unsigned_body(s);
    if d.len() > 0 && all_hex(d) && hex_value(d) <= u32::MAX {
        Some(hex_value(d))
    } else {
        None
    }
}

/// A hexadecimal value never shrinks as digits are added.
proof fn lemma_hex_value_prefix(s: Seq<char>, j: int)
    requires
        0 <= j <= s.len(),
    ensures
        hex_value(s.subrange(0, j)) <= hex_value(s),
    decreases s.len() - j,
{
    if j < s.len() {
        lemma_hex_value_prefix(s, j + 1);
        assert(s.subrange(0, j + 1).drop_last() =~= s.subrange(0, j));
    } else {
        assert(s.subrange(0, j) =~= s);
    }
}

/// The value of a hexadecimal number as `u32::from_str_radix(_, 16)` reads
/// it: an optional `+` and one or more hex digits, within `u32`.
pub(crate) fn parse_hex(s: &Vec<char>) -> (r: Option<u32>)
    ensures
        match hex_spec(s@) {
            Some(v) => r == Some(v as u32),
            None => r is None,
        },
{
    let start: usize = if s.len() > 0 && s[0] == '+' {
        1
    } else {
        0
    };
    let ghost d = if s@.len() > 0 && s@[0] == '+' {
        s@.drop_first()
    } else {
        s@
    };
    assert(d =~= s@.subrange(start as int, s@.len() as int));
    if start >= s.len() {
        return None;
    }
    let mut v: u64 = 0;
    let mut i: usize = start;
    while i < s.len()
        invariant
            start <= i <= s.len(),
            d == s@.subrange(start as int, s@.len() as int),
            d == unsigned_body(s@),
            v <= 0xFFFF_FFFF,
            v == hex_value(s@.subrange(start as int, i as int)),
            forall|k: int| start <= k < i ==> is_hex_digit(#[trigger] s@[k]),
        decreases s.len() - i,
    {
        let c = s[i];
        let dv: u64 = if '0' <= c && c <= '9' {
            (c as u32 - '0' as u32) as u64
        } else if 'a' <= c && c <= 'f' {
            (c as u32 - 'a' as u32 + 10) as u64
        } else if 'A' <= c && c <= 'F' {
            (c as u32 - 'A' as u32 + 10) as u64
        } else {
            proof {
                assert(d[i - start] == s@[i as int]);
                assert(!is_hex_digit(d[i - start]));
                assert(!all_hex(d));
                assert(d == unsigned_body(s@));
                assert(hex_spec(s@) is None);
            }
            return None;
        };
        proof {
            assert(s@.subrange(start as int, i + 1).drop_last() =~= s@.subrange(start as int, i as int));
        }
        v = v * 16 + dv;
        assert(v == hex_value(s@.subrange(start as int, i + 1)));
        if v > 0xFFFF_FFFF {
            proof {
                lemma_hex_value_prefix(d, i + 1 - start);
                assert(d.subrange(0, i + 1 - start) =~= s@.subrange(start as int, i + 1));
                assert(hex_value(d) > u32::MAX);
                assert(d == unsigned_body(s@));
                assert(hex_spec(s@) is None);
            }
            return None;
        }
        i += 1;
    }
    assert(s@.subrange(start as int, i as int) =~= d);
    assert forall|k: int| 0 <= k < d.len() implies is_hex_digit(#[trigger] d[k]) by {
        assert(d[k] == s@[start + k]);
    }
    assert(all_hex(d));
    Some(v as u32)
}

/// A Unicode scalar value: a code point that is not a surrogate.
pub open spec fn is_scalar(v: nat) -> bool {
    v <= 0x10FFFF && (v < 0xD800 || v > 0xDFFF)
}

/// The character with code point `v`.
pub open spec fn char_of(v: nat) -> char {
    (v as u32) as char
}

/// The code point a numeric reference (`#N` or `#xH`) gives.
pub open spec fn numeric_code(e: Seq<char>) -> Option<nat> {
    if crate::text::has_prefix(e, "#x"@) {
        hex_spec(e.skip(2))
    } else {
        crate::text::parse_unsigned_spec(e.skip(1), u32::MAX as nat)
    }
}

/// The character an entity (the text between `&` and `;`) stands for.
pub open spec fn entity_char(e: Seq<char>) -> Option<char> {
    if e == "amp"@ {
        Some('&')
    } else if e == "lt"@ {
        Some('<')
    } else if e == "gt"@ {
        Some('>')
    } else if e == "quot"@ {
        Some('"')
    } else if e == "apos"@ {
        Some('\'')
    } else if e.len() > 0 && e[0] == '#' {
        match numeric_code(e) {
            Some(v) => if is_scalar(v) {
                Some(char_of(v))
            } else {
                None
            },
            None => None,
        }
    } else {
        None
    }
}

/// The character that a numeric entity stands for.
fn numeric_entity(entity: &Vec<char>) -> (r: Option<char>)
    requires
        entity@.len() > 0,
        entity@[0] == '#',
    ensures
        r == entity_char(entity@),
{
    proof {
        reveal_strlit("amp");
        reveal_strlit("lt");
        reveal_strlit("gt");
        reveal_strlit("quot");
        reveal_strlit("apos");
        reveal_strlit("#x");
    }
    let value = if starts_with_lit(entity, "#x") {
        parse_hex(&skip(entity, 2))
    } else {
        match parse_unsigned(&skip(entity, 1), 4294967295) {
            Some(n) => Some(n as u32),
            None => None,
        }
    };
    assert(value matches Some(v) <==> numeric_code(entity@) is Some);
    assert(value matches Some(v) ==> numeric_code(entity@) == Some(v as nat));
    match value {
        Some(v) => {
            let r = char_from_u32(v);
            proof {
                if let Some(c) = r {
                    vstd::utf8::char_u32_cast(c, v);
                }
            }
            r
        },
        None => None,
    }
}

/// What decoding `s` gives after `prefix` was decoded before it.
pub open spec fn after_prefix(prefix: Seq<char>, r: Result<Seq<char>, Seq<char>>) -> Result<
    Seq<char>,
    Seq<char>,
> {
    match r {
        Ok(t) => Ok(prefix + t),
        Err(m) => Err(m),
    }
}

/// Decoding the character references of XML text, left to right: each `&`
/// starts a reference that ends at the next `;`; an unterminated, invalid
/// or unsupported reference makes the whole text an error, with that
/// message.
pub open spec fn decode_spec(s: Seq<char>) -> Result<Seq<char>, Seq<char>>
    decreases s.len(),
{
    if s.len() == 0 {
        Ok(seq![])
    } else if s[0] != '&' {
        after_prefix(seq![s[0]], decode_spec(s.drop_first()))
    } else {
        match index_of_char(s, ';') {
            None => Err("unterminated entity"@),
            Some(end) => if 0 < end < s.len() {
                let e = s.subrange(1, end);
                match entity_char(e) {
                    Some(c) => after_prefix(seq![c], decode_spec(s.subrange(end + 1, s.len() as int))),
                    None => if e.len() > 0 && e[0] == '#' {
                        Err("invalid entity '&"@ + e + ";'"@)
                    } else {
                        Err("unsupported entity '&"@ + e + ";'"@)
                    },
                }
            } else {
                Err(seq![])
            },
        }
    }
}

/// Decodes the character references `&amp;`, `&lt;`, `&gt;`, `&quot;`,
/// `&apos;`, `&#N;` and `&#xH;`; any other reference is an error.
pub fn decode_entities(input: &Vec<char>) -> (r: Result<Vec<char>, Vec<char>>)
    ensures
        match decode_spec(input@) {
            Ok(t) => r matches Ok(v) && v@ == t,
            Err(m) => r matches Err(v) && v@ == m,
        },
{
    let mut out: Vec<char> = Vec::new();
    let mut pos: usize = 0;
    proof {
        assert(input@.subrange(0, input@.len() as int) =~= input@);
        match decode_spec(input@) {
            Ok(t) => assert(out@ + t =~= t),
            Err(_) => {},
        }
    }
    while pos < input.len()
        invariant
            pos <= input.len(),
            decode_spec(input@) == after_prefix(out@, decode_spec(input@.subrange(pos as int, input@.len() as int))),
        decreases input.len() - pos,
    {
        let ghost rest = input@.subrange(pos as int, input@.len() as int);
        let c = input[pos];
        if c != '&' {
            proof {
                assert(rest.drop_first() =~= input@.subrange(pos + 1, input@.len() as int));
                match decode_spec(rest.drop_first()) {
                    Ok(t) => assert(out@ + (seq![c] + t) =~= out@.push(c) + t),
                    Err(_) => {},
                }
            }
            out.push(c);
            pos += 1;
            continue;
        }
        let end = match find_char_from(input, ';', pos) {
            Some(e) => e,
            None => {
                proof {
                    assert forall|j: int| 0 <= j < rest.len() implies rest[j] != ';' by {
                        assert(rest[j] == input@[pos + j]);
                    }
                    lemma_index_of_char_unique(rest, ';', rest.len() as int);
                }
                return Err(msg("unterminated entity"));
            },
        };
        proof {
            assert forall|j: int| 0 <= j < end - pos implies rest[j] != ';' by {
                assert(rest[j] == input@[pos + j]);
            }
            assert(rest[end - pos] == input@[end as int]);
            lemma_index_of_char_unique(rest, ';', end - pos);
        }
        let entity = substring(input, pos + 1, end);
        assert(entity@ =~= rest.subrange(1, end - pos));
        proof {
            reveal_strlit("amp");
            reveal_strlit("lt");
            reveal_strlit("gt");
            reveal_strlit("quot");
            reveal_strlit("apos");
        }
        let ch = if eq_lit(&entity, "amp") {
            '&'
        } else if eq_lit(&entity, "lt") {
            '<'
        } else if eq_lit(&entity, "gt") {
            '>'
        } else if eq_lit(&entity, "quot") {
            '"'
        } else if eq_lit(&entity, "apos") {
            '\''
        } else if first_is(&entity, '#') {
            match numeric_entity(&entity) {
                Some(ch) => ch,
                None => return Err(msg_with("invalid entity '&", &entity, ";'")),
            }
        } else {
            return Err(msg_with("unsupported entity '&", &entity, ";'"));
        };
        assert(entity_char(entity@) == Some(ch));
        proof {
            assert(rest.subrange(end - pos + 1, rest.len() as int) =~= input@.subrange(end + 1, input@.len() as int));
            match decode_spec(input@.subrange(end + 1, input@.len() as int)) {
                Ok(t) => assert(out@ + (seq![ch] + t) =~= out@.push(ch) + t),
                Err(_) => {},
            }
        }
        out.push(ch);
        pos = end + 1;
    }
    proof {
        assert(out@ + seq![] =~= out@);
    }
    Ok(out)
}

/// How one character is written in XML text; `attr` also escapes quotes.
pub open spec fn xml_escape_char(c: char, attr: bool) -> Seq<char> {
    if c == '&' {
        "&amp;"@
    } else if c == '<' {
        "&lt;"@
    } else if c == '>' {
        "&gt;"@
    } else if c == '"' && attr {
        "&quot;"@
    } else if c == '\'' && attr {
        "&apos;"@
    } else {
        seq![c]
    }
}

/// A text with each character escaped for XML.
pub open spec fn xml_escape_spec(s: Seq<char>, attr: bool) -> Seq<char>
    decreases s.len(),
{
    if s.len() == 0 {
        Seq::empty()
    } else {
        xml_escape_spec(s.drop_last(), attr) + xml_escape_char(s.last(), attr)
    }
}

fn escape_into(out: &mut Vec<char>, text: &Vec<char>, attr: bool)
    ensures
        final(out)@ == old(out)@ + xml_escape_spec(text@, attr),
{
    let ghost start = out@;
    let mut i: usize = 0;
    while i < text.len()
        invariant
            i <= text.len(),
            out@ == start + xml_escape_spec(text@.subrange(0, i as int), attr),
        decreases text.len() - i,
    {
        let c = text[i];
        let ghost before = out@;
        proof {
            reveal_strlit("&amp;");
            reveal_strlit("&lt;");
            reveal_strlit("&gt;");
            reveal_strlit("&quot;");
            reveal_strlit("&apos;");
        }
        if c == '&' {
            push_str(out, "&amp;");
        } else if c == '<' {
            push_str(out, "&lt;");
        } else if c == '>' {
            push_str(out, "&gt;");
        } else if c == '"' && attr {
            push_str(out, "&quot;");
        } else if c == '\'' && attr {
            push_str(out, "&apos;");
        } else {
            out.push(c);
        }
        assert(out@ == before + xml_escape_char(c, attr));
        assert(text@.subrange(0, i + 1).drop_last() =~= text@.subrange(0, i as int));
        assert(start + xml_escape_spec(text@.subrange(0, i + 1), attr) =~= before + xml_escape_char(
            c,
            attr,
        ));
        i += 1;
    }
    assert(text@.subrange(0, text@.len() as int) =~= text@);
}

/// `&`, `<` and `>` escaped (`str::replace` three times).
pub fn escape_xml(text: &String) -> (v: Vec<char>)
    ensures
        v@ == xml_escape_spec(text@, false),
{
    let mut v: Vec<char> = Vec::new();
    escape_into(&mut v, &chars_of_string(text), false);
    v
}

/// `&`, `<`, `>`, `"` and `'` escaped, for attribute values.
pub fn escape_xml_attr(text: &String) -> (v: Vec<char>)
    ensures
        v@ == xml_escape_spec(text@, true),
{
    let mut v: Vec<char> = Vec::new();
    escape_into(&mut v, &chars_of_string(text), true);
    v
}

/// Text made only of whitespace.
pub(crate) fn is_blank_text(node: &XmlNode) -> bool {
    match node {
        XmlNode::Text(t) => is_blank(t),
        XmlNode::Element(_) => false,
    }
}

/// Escaping a text escapes its first character, then the rest.
proof fn lemma_xml_escape_front(s: Seq<char>, attr: bool)
    requires
        s.len() > 0,
    ensures
        xml_escape_spec(s, attr) == xml_escape_char(s[0], attr) + xml_escape_spec(s.drop_first(), attr),
    decreases s.len(),
{
    if s.len() == 1 {
        assert(s.drop_last() =~= seq![]);
        assert(s.drop_first() =~= seq![]);
        assert(xml_escape_char(s[0], attr) + seq![] =~= xml_escape_char(s[0], attr));
    } else {
        lemma_xml_escape_front(s.drop_last(), attr);
        assert(s.drop_last().drop_first() =~= s.drop_first().drop_last());
        assert(s.drop_first().last() == s.last());
        assert(xml_escape_char(s[0], attr) + xml_escape_spec(s.drop_first().drop_last(), attr)
            + xml_escape_char(s.last(), attr) =~= xml_escape_char(s[0], attr) + (xml_escape_spec(
            s.drop_first().drop_last(),
            attr,
        ) + xml_escape_char(s.last(), attr)));
    }
}

/// A reference `&name;` at the front decodes to its character, followed by
/// the decoding of what comes after it.
proof fn lemma_decode_reference(name: Seq<char>, c: char, rest: Seq<char>)
    requires
        name.len() > 0,
        forall|j: int| 0 <= j < name.len() ==> name[j] != ';',
        entity_char(name) == Some(c),
    ensures
        decode_spec(seq!['&'] + name + seq![';'] + rest) == after_prefix(seq![c], decode_spec(rest)),
{
    let t = seq!['&'] + name + seq![';'] + rest;
    let k: int = name.len() as int + 1;
    assert forall|j: int| 0 <= j < k implies t[j] != ';' by {
        if j > 0 {
            assert(t[j] == name[j - 1]);
        }
    }
    assert(t[k] == ';');
    lemma_index_of_char_unique(t, ';', k);
    assert(t.subrange(1, k) =~= name);
    assert(t.subrange(k + 1, t.len() as int) =~= rest);
}

/// Reading back a text escaped for XML gives the text: decoding the
/// character references undoes the escaping, in text and in attribute
/// values alike.
pub proof fn law_decoding_undoes_escaping(s: Seq<char>, attr: bool)
    ensures
        decode_spec(xml_escape_spec(s, attr)) == Ok::<Seq<char>, Seq<char>>(s),
    decreases s.len(),
{
    if s.len() > 0 {
        lemma_xml_escape_front(s, attr);
        law_decoding_undoes_escaping(s.drop_first(), attr);
        let c = s[0];
        let rest = xml_escape_spec(s.drop_first(), attr);
        assert(seq![c] + s.drop_first() =~= s);
        reveal_strlit("&amp;");
        reveal_strlit("&lt;");
        reveal_strlit("&gt;");
        reveal_strlit("&quot;");
        reveal_strlit("&apos;");
        reveal_strlit("amp");
        reveal_strlit("lt");
        reveal_strlit("gt");
        reveal_strlit("quot");
        reveal_strlit("apos");
        assert("gt"@[0] != "lt"@[0]);
        assert("apos"@[0] != "quot"@[0]);
        if c == '&' {
            assert("&amp;"@ =~= seq!['&'] + "amp"@ + seq![';']);
            lemma_decode_reference("amp"@, c, rest);
        } else if c == '<' {
            assert("&lt;"@ =~= seq!['&'] + "lt"@ + seq![';']);
            lemma_decode_reference("lt"@, c, rest);
        } else if c == '>' {
            assert("&gt;"@ =~= seq!['&'] + "gt"@ + seq![';']);
            lemma_decode_reference("gt"@, c, rest);
        } else if c == '"' && attr {
            assert("&quot;"@ =~= seq!['&'] + "quot"@ + seq![';']);
            lemma_decode_reference("quot"@, c, rest);
        } else if c == '\'' && attr {
            assert("&apos;"@ =~= seq!['&'] + "apos"@ + seq![';']);
            lemma_decode_reference("apos"@, c, rest);
        } else {
            let t = seq![c] + rest;
            assert(xml_escape_char(c, attr) == seq![c]);
            assert(t[0] == c);
            assert(t.drop_first() =~= rest);
            assert(decode_spec(t) == after_prefix(seq![c], decode_spec(rest)));
        }
    } else {
        assert(s =~= seq![]);
        assert(xml_escape_spec(s, attr) =~= seq![]);
    }
}

proof fn lemma_escape_has_no_tag(s: Seq<char>, attr: bool)
    ensures
        no_tag_from(xml_escape_spec(s, attr), 0),
    decreases s.len(),
{
    if s.len() > 0 {
        lemma_escape_has_no_tag(s.drop_last(), attr);
        reveal_strlit("&amp;");
        reveal_strlit("&lt;");
        reveal_strlit("&gt;");
        reveal_strlit("&quot;");
        reveal_strlit("&apos;");
        let front = xml_escape_spec(s.drop_last(), attr);
        let back = xml_escape_char(s.last(), attr);
        assert forall|j: int| 0 <= j < xml_escape_spec(s, attr).len() implies #[trigger] xml_escape_spec(
            s,
            attr,
        )[j] != '<' by {
            if j >= front.len() {
                assert(xml_escape_spec(s, attr)[j] == back[j - front.len()]);
            } else {
                assert(xml_escape_spec(s, attr)[j] == front[j]);
            }
        }
    }
}

/// Text escaped for XML holds no `<`, so the XML reader takes all of it as
/// one run of text, and reads that run as the text itself (nothing, for no
/// text).
pub proof fn law_escaped_text_reads_back(s: Seq<char>, attr: bool)
    ensures
        no_tag_from(xml_escape_spec(s, attr), 0),
        forall|r: Result<Vec<XmlNode>, ParseError>|
            #[trigger] reads_as_text(r, xml_escape_spec(s, attr)) ==> (r matches Ok(n) && text_nodes(
                n@,
                s,
            )),
{
    lemma_escape_has_no_tag(s, attr);
    law_decoding_undoes_escaping(s, attr);
}

} // verus!
