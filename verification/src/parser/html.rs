//! The document parser: elements with single-quoted attributes and
//! nested children, text runs between tags, all under a synthetic root
//! element.
use vstd::prelude::*;
use vstd::string::StrSliceExecFns;

use crate::dom::{new_element, new_text, AttrMap, DomNode, ElemV, NodeKindV, NodeV, TagType};
use crate::parser::{scan, scan_exec, spec_expect, CharClass, IParser, ParseError};

verus! {

/// A document parser: a character position over owned input.
#[derive(Debug)]
pub struct HTMLParser {
    pos: usize,
    input: String,
}

/// Case-blind equality against a lower-case name.
pub open spec fn matches_ci(s: Seq<char>, t: Seq<char>) -> bool {
    s.len() == t.len() && forall|k: int|
        0 <= k < s.len() ==> (#[trigger] s[k]) == t[k] || (65 <= s[k] as u32 <= 90 && s[k] as u32
            + 32 == t[k] as u32)
}

fn str_eq_ci(s: &str, t: &str) -> (r: bool)
    ensures
        r == matches_ci(s@, t@),
{
    let n = s.unicode_len();
    if n != t.unicode_len() {
        return false;
    }
    let mut i: usize = 0;
    while i < n
        invariant
            0 <= i <= n,
            n == s@.len() == t@.len(),
            forall|k: int|
                0 <= k < i ==> (#[trigger] s@[k]) == t@[k] || (65 <= s@[k] as u32 <= 90 && s@[k]
                    as u32 + 32 == t@[k] as u32),
        decreases n - i,
    {
        let a = s.get_char(i) as u32;
        let b = t.get_char(i) as u32;
        if !(a == b || (65 <= a && a <= 90 && a + 32 == b)) {
            return false;
        }
        i = i + 1;
    }
    true
}

/// The supported tag names, read case-blind.
pub open spec fn tag_of_name_ci(s: Seq<char>) -> Option<TagType> {
    if matches_ci(s, "html"@) {
        Some(TagType::Html)
    } else if matches_ci(s, "div"@) {
        Some(TagType::Div)
    } else if matches_ci(s, "p"@) {
        Some(TagType::P)
    } else if matches_ci(s, "span"@) {
        Some(TagType::Span)
    } else if matches_ci(s, "style"@) {
        Some(TagType::Style)
    } else {
        None
    }
}

fn tag_from_name_ci(s: &str) -> (r: Option<TagType>)
    ensures
        r == tag_of_name_ci(s@),
{
    if str_eq_ci(s, "html") {
        Some(TagType::Html)
    } else if str_eq_ci(s, "div") {
        Some(TagType::Div)
    } else if str_eq_ci(s, "p") {
        Some(TagType::P)
    } else if str_eq_ci(s, "span") {
        Some(TagType::Span)
    } else if str_eq_ci(s, "style") {
        Some(TagType::Style)
    } else {
        None
    }
}

// --- the document grammar, at spec level ---
//
// Each function takes the input characters and a position and returns
// what the exec parser returns from there, with the position after
// it. The guards before each recursive call only restate what the
// scan bounds guarantee, so the recursion visibly advances.

/// One text node: the run before the next tag opener, its content
/// trimmed of surrounding whitespace.
pub open spec fn spec_parse_text(s: Seq<char>, i: int) -> (NodeV, int) {
    let j = scan(s, i, CharClass::NotLt);
    (
        NodeV {
            kind: NodeKindV::Text(crate::text::trim_spaces(s.subrange(i, j))),
            children: Seq::empty(),
        },
        j,
    )
}

/// The single-quoted attributes before a tag closer, newest first —
/// as the attribute map stores them, a later duplicate shadowing an
/// earlier one.
pub open spec fn spec_parse_attributes(
    s: Seq<char>,
    i: int,
    acc: Seq<(Seq<char>, Seq<char>)>,
) -> Result<(Seq<(Seq<char>, Seq<char>)>, int), ParseError>
    decreases s.len() - i,
{
    if !(0 <= i < s.len()) || s[i] == '>' {
        Ok((acc, i))
    } else {
        let i1 = scan(s, i, CharClass::Space);
        let nb = scan(s, i1, CharClass::AttrName);
        let name = s.subrange(i1, nb);
        match spec_expect(s, nb, '=') {
            Err(e) => Err(e),
            Ok(pd) => match spec_expect(s, pd, '\u{27}') {
                Err(e) => Err(e),
                Ok(pe) => {
                    let ve = scan(s, pe, CharClass::NotQuote);
                    let value = s.subrange(pe, ve);
                    match spec_expect(s, ve, '\u{27}') {
                        Err(e) => Err(e),
                        Ok(pf) => if i < pf <= s.len() {
                            spec_parse_attributes(s, pf, seq![(name, value)] + acc)
                        } else {
                            Err(ParseError::BadChar)
                        },
                    }
                },
            },
        }
    }
}

/// A tag opener: its case-blind name and its attributes, ending past
/// the tag closer.
pub open spec fn spec_parse_tag(s: Seq<char>, i: int) -> Result<
    ((TagType, Seq<(Seq<char>, Seq<char>)>), int),
    ParseError,
> {
    if i >= s.len() {
        Err(ParseError::Eof)
    } else {
        let tn = scan(s, i + 1, CharClass::TagName);
        match spec_parse_attributes(s, tn, Seq::empty()) {
            Err(e) => Err(e),
            Ok((attrs, j1)) => if j1 >= s.len() {
                Err(ParseError::Eof)
            } else {
                match tag_of_name_ci(s.subrange(i + 1, tn)) {
                    Some(t) => Ok(((t, attrs), j1 + 1)),
                    None => Err(ParseError::UnknownTag),
                }
            },
        }
    }
}

/// One node: an element at a tag opener, else a text run.
pub open spec fn spec_parse_node(s: Seq<char>, i: int) -> Result<(NodeV, int), ParseError>
    decreases s.len() - i, 1int,
{
    if !(0 <= i < s.len()) {
        Err(ParseError::Eof)
    } else if s[i] == '<' {
        spec_parse_element(s, i)
    } else {
        Ok(spec_parse_text(s, i))
    }
}

/// An element: a tag, its children, and its closing tag.
pub open spec fn spec_parse_element(s: Seq<char>, i: int) -> Result<(NodeV, int), ParseError>
    decreases s.len() - i, 0int,
{
    match spec_parse_tag(s, i) {
        Err(e) => Err(e),
        Ok(((tag, attrs), j2)) => if i < j2 <= s.len() {
            match spec_parse_nodes(s, j2) {
                Err(e) => Err(e),
                Ok((kids, j3)) => match spec_expect(s, j3, '<') {
                    Err(e) => Err(e),
                    Ok(j4) => match spec_expect(s, j4, '/') {
                        Err(e) => Err(e),
                        Ok(j5) => {
                            let ce = scan(s, j5, CharClass::NotGt);
                            match spec_expect(s, ce, '>') {
                                Err(e) => Err(e),
                                Ok(j6) => Ok(
                                    (
                                        NodeV {
                                            kind: NodeKindV::Element(ElemV { tag, attrs }),
                                            children: kids,
                                        },
                                        j6,
                                    ),
                                ),
                            }
                        },
                    },
                },
            }
        } else {
            Err(ParseError::BadChar)
        },
    }
}

/// Sibling nodes until the input ends or a closing tag begins; a lone
/// tag opener at the end of input opens nothing.
pub open spec fn spec_parse_nodes(s: Seq<char>, i: int) -> Result<(Seq<NodeV>, int), ParseError>
    decreases s.len() - i, 2int,
{
    let i1 = scan(s, i, CharClass::Space);
    if !(i <= i1 <= s.len()) {
        Err(ParseError::BadChar)
    } else if i1 == s.len() {
        Ok((Seq::empty(), i1))
    } else if s[i1] == '<' && i1 + 1 < s.len() && s[i1 + 1] == '/' {
        Ok((Seq::empty(), i1))
    } else if s[i1] == '<' && i1 + 1 >= s.len() {
        Err(ParseError::Eof)
    } else {
        match spec_parse_node(s, i1) {
            Err(e) => Err(e),
            Ok((node, j)) => if i1 < j <= s.len() {
                match spec_parse_nodes(s, j) {
                    Ok((rest, p)) => Ok((seq![node] + rest, p)),
                    Err(e) => Err(e),
                }
            } else {
                Err(ParseError::BadChar)
            },
        }
    }
}

/// The views of a node list, in order.
pub open spec fn node_views(v: Seq<DomNode>) -> Seq<NodeV> {
    Seq::new(v.len(), |i: int| v[i]@)
}

impl HTMLParser {
    pub closed spec fn spec_input(&self) -> Seq<char> {
        self.input@
    }

    pub closed spec fn spec_pos(&self) -> int {
        self.pos as int
    }

    pub open spec fn wf(&self) -> bool {
        0 <= self.spec_pos() <= self.spec_input().len()
    }

    pub fn new(input: &str) -> (r: HTMLParser)
        ensures
            r.wf(),
            r.spec_input() == input@,
            r.spec_pos() == 0,
    {
        HTMLParser { pos: 0, input: input.to_owned() }
    }

    fn eof(&self) -> (r: bool)
        requires
            self.wf(),
        ensures
            r == (self.spec_pos() == self.spec_input().len()),
    {
        self.pos >= self.input.as_str().unicode_len()
    }

    fn next_char(&self) -> (c: char)
        requires
            self.wf(),
            self.spec_pos() < self.spec_input().len(),
        ensures
            c == self.spec_input()[self.spec_pos()],
    {
        self.input.as_str().get_char(self.pos)
    }

    fn next_char_at(&self, offset: usize) -> (c: char)
        requires
            self.wf(),
            self.spec_pos() + offset < self.spec_input().len(),
        ensures
            c == self.spec_input()[self.spec_pos() + offset],
    {
        // the concrete length bounds the offset position
        let _n = self.input.as_str().unicode_len();
        self.input.as_str().get_char(self.pos + offset)
    }

    fn consume_char(&mut self) -> (r: Result<char, ParseError>)
        requires
            old(self).wf(),
        ensures
            final(self).wf(),
            final(self).spec_input() == old(self).spec_input(),
            match r {
                Ok(c) => old(self).spec_pos() < final(self).spec_input().len()
                    && c == final(self).spec_input()[old(self).spec_pos()]
                    && final(self).spec_pos() == old(self).spec_pos() + 1,
                Err(e) => e == ParseError::Eof
                    && old(self).spec_pos() == final(self).spec_input().len()
                    && final(self).spec_pos() == old(self).spec_pos(),
            },
    {
        if self.pos >= self.input.as_str().unicode_len() {
            return Err(ParseError::Eof);
        }
        let c = self.input.as_str().get_char(self.pos);
        self.pos = self.pos + 1;
        Ok(c)
    }

    /// Consumes one character that must be `expected`.
    fn expect_char(&mut self, expected: char) -> (r: Result<(), ParseError>)
        requires
            old(self).wf(),
        ensures
            final(self).wf(),
            final(self).spec_input() == old(self).spec_input(),
            old(self).spec_pos() <= final(self).spec_pos() <= old(self).spec_pos() + 1,
            match r {
                Ok(()) => crate::parser::spec_expect(
                    old(self).spec_input(),
                    old(self).spec_pos(),
                    expected,
                ) == Ok::<int, ParseError>(final(self).spec_pos()),
                Err(e) => crate::parser::spec_expect(
                    old(self).spec_input(),
                    old(self).spec_pos(),
                    expected,
                ) == Err::<int, ParseError>(e),
            },
    {
        match self.consume_char() {
            Ok(c) => {
                if c == expected {
                    Ok(())
                } else {
                    Err(ParseError::BadChar)
                }
            },
            Err(e) => Err(e),
        }
    }

    /// Consumes the run of `cls` characters at the position.
    fn consume_class(&mut self, cls: CharClass) -> (r: String)
        requires
            old(self).wf(),
        ensures
            final(self).wf(),
            final(self).spec_input() == old(self).spec_input(),
            final(self).spec_pos() == scan(final(self).spec_input(), old(self).spec_pos(), cls),
            old(self).spec_pos() <= final(self).spec_pos(),
            r@ == final(self).spec_input().subrange(old(self).spec_pos(), final(self).spec_pos()),
    {
        let end = scan_exec(self.input.as_str(), self.pos, cls);
        let r = self.input.as_str().substring_char(self.pos, end).to_owned();
        self.pos = end;
        r
    }

    fn consume_white_space(&mut self)
        requires
            old(self).wf(),
        ensures
            final(self).wf(),
            final(self).spec_input() == old(self).spec_input(),
            final(self).spec_pos() == scan(
                final(self).spec_input(),
                old(self).spec_pos(),
                CharClass::Space,
            ),
            old(self).spec_pos() <= final(self).spec_pos(),
    {
        let _ = self.consume_class(CharClass::Space);
    }

    /// Parses one text node: the run before the next tag opener, with
    /// surrounding whitespace removed.
    fn parse_text(&mut self) -> (r: DomNode)
        requires
            old(self).wf(),
            old(self).spec_pos() < old(self).spec_input().len(),
            old(self).spec_input()[old(self).spec_pos()] != '<',
        ensures
            final(self).wf(),
            final(self).spec_input() == old(self).spec_input(),
            old(self).spec_pos() < final(self).spec_pos(),
            spec_parse_text(old(self).spec_input(), old(self).spec_pos()) == (
                r@,
                final(self).spec_pos(),
            ),
    {
        let ghost start = self.spec_pos();
        let content = self.consume_class(CharClass::NotLt);
        proof {
            crate::parser::lemma_scan_bounds(self.spec_input(), start, CharClass::NotLt);
        }
        let node = new_text(content.as_str(), Vec::new());
        proof {
            assert(node@.kind == NodeKindV::Text(crate::text::trim_spaces(content@)));
            assert(node@.children =~= Seq::<NodeV>::empty());
            assert(node@ =~= (NodeV {
                kind: NodeKindV::Text(crate::text::trim_spaces(content@)),
                children: Seq::empty(),
            }));
        }
        node
    }

    /// Parses the single-quoted attributes before a tag closer:
    /// exactly the pairs the grammar denotes, newest first.
    #[verifier::loop_isolation(false)]
    fn parse_attributes(&mut self) -> (r: Result<AttrMap, ParseError>)
        requires
            old(self).wf(),
        ensures
            final(self).wf(),
            final(self).spec_input() == old(self).spec_input(),
            old(self).spec_pos() <= final(self).spec_pos(),
            match r {
                Ok(attrs) => spec_parse_attributes(
                    old(self).spec_input(),
                    old(self).spec_pos(),
                    Seq::empty(),
                ) == Ok::<(Seq<(Seq<char>, Seq<char>)>, int), ParseError>(
                    (attrs@, final(self).spec_pos()),
                ),
                Err(e) => spec_parse_attributes(
                    old(self).spec_input(),
                    old(self).spec_pos(),
                    Seq::empty(),
                ) == Err::<(Seq<(Seq<char>, Seq<char>)>, int), ParseError>(e),
            },
    {
        let ghost input = self.spec_input();
        let ghost start = self.spec_pos();
        let n = self.input.as_str().unicode_len();
        let mut attributes = AttrMap::new();
        proof {
            assert(attributes@ =~= Seq::<(Seq<char>, Seq<char>)>::empty());
        }
        while !self.eof() && self.next_char() != '>'
            invariant
                self.wf(),
                self.spec_input() == input,
                n == input.len(),
                start <= self.spec_pos(),
                spec_parse_attributes(input, start, Seq::empty()) == spec_parse_attributes(
                    input,
                    self.spec_pos(),
                    attributes@,
                ),
            decreases n - self.spec_pos(),
        {
            let ghost head = self.spec_pos();
            self.consume_white_space();
            let name = self.consume_class(CharClass::AttrName);
            match self.expect_char('=') {
                Ok(()) => {},
                Err(e) => {
                    return Err(e);
                },
            }
            match self.expect_char('\u{27}') {
                Ok(()) => {},
                Err(e) => {
                    return Err(e);
                },
            }
            let value = self.consume_class(CharClass::NotQuote);
            match self.expect_char('\u{27}') {
                Ok(()) => {},
                Err(e) => {
                    return Err(e);
                },
            }
            let ghost old_attrs = attributes@;
            let ghost nv = name@;
            let ghost vv = value@;
            attributes.insert(name, value);
            proof {
                assert(attributes@ =~= seq![(nv, vv)] + old_attrs);
            }
        }
        Ok(attributes)
    }

    /// Parses a tag opener: its name, case-blind, and its attributes —
    /// exactly what the grammar denotes.
    fn parse_tag(&mut self) -> (r: Result<(TagType, AttrMap), ParseError>)
        requires
            old(self).wf(),
            old(self).spec_pos() < old(self).spec_input().len(),
        ensures
            final(self).wf(),
            final(self).spec_input() == old(self).spec_input(),
            old(self).spec_pos() <= final(self).spec_pos(),
            match r {
                Ok((t, attrs)) => spec_parse_tag(old(self).spec_input(), old(self).spec_pos())
                    == Ok::<((TagType, Seq<(Seq<char>, Seq<char>)>), int), ParseError>(
                    ((t, attrs@), final(self).spec_pos()),
                ) && old(self).spec_pos() < final(self).spec_pos(),
                Err(e) => spec_parse_tag(old(self).spec_input(), old(self).spec_pos()) == Err::<
                    ((TagType, Seq<(Seq<char>, Seq<char>)>), int),
                    ParseError,
                >(e),
            },
    {
        match self.consume_char() {
            Ok(_) => {},
            Err(e) => {
                return Err(e);
            },
        }
        let tag = self.consume_class(CharClass::TagName);
        let attributes = match self.parse_attributes() {
            Ok(a) => a,
            Err(e) => {
                return Err(e);
            },
        };
        match self.consume_char() {
            Ok(_) => {},
            Err(e) => {
                return Err(e);
            },
        }
        match tag_from_name_ci(tag.as_str()) {
            Some(tag_type) => Ok((tag_type, attributes)),
            None => Err(ParseError::UnknownTag),
        }
    }

    /// Parses one node: an element at a tag opener, else a text run.
    fn parse_node(&mut self) -> (r: Result<DomNode, ParseError>)
        requires
            old(self).wf(),
            old(self).spec_pos() < old(self).spec_input().len(),
        ensures
            final(self).wf(),
            final(self).spec_input() == old(self).spec_input(),
            old(self).spec_pos() <= final(self).spec_pos(),
            match r {
                Ok(node) => spec_parse_node(old(self).spec_input(), old(self).spec_pos()) == Ok::<
                    (NodeV, int),
                    ParseError,
                >((node@, final(self).spec_pos()))
                    && old(self).spec_pos() < final(self).spec_pos(),
                Err(e) => spec_parse_node(old(self).spec_input(), old(self).spec_pos()) == Err::<
                    (NodeV, int),
                    ParseError,
                >(e),
            },
        decreases old(self).spec_input().len() - old(self).spec_pos(), 1int,
    {
        if self.next_char() == '<' {
            self.parse_element()
        } else {
            Ok(self.parse_text())
        }
    }

    /// Parses sibling nodes until the input ends or a closing tag
    /// begins: exactly the nodes the grammar denotes, in order.
    #[verifier::loop_isolation(false)]
    fn parse_nodes(&mut self) -> (r: Result<Vec<DomNode>, ParseError>)
        requires
            old(self).wf(),
        ensures
            final(self).wf(),
            final(self).spec_input() == old(self).spec_input(),
            old(self).spec_pos() <= final(self).spec_pos(),
            match r {
                Ok(nodes) => spec_parse_nodes(old(self).spec_input(), old(self).spec_pos())
                    == Ok::<(Seq<NodeV>, int), ParseError>(
                    (node_views(nodes@), final(self).spec_pos()),
                ),
                Err(e) => spec_parse_nodes(old(self).spec_input(), old(self).spec_pos()) == Err::<
                    (Seq<NodeV>, int),
                    ParseError,
                >(e),
            },
        decreases old(self).spec_input().len() - old(self).spec_pos(), 2int,
    {
        let ghost input = self.spec_input();
        let ghost start = self.spec_pos();
        let n = self.input.as_str().unicode_len();
        let mut nodes: Vec<DomNode> = Vec::new();
        proof {
            assert(node_views(nodes@) =~= Seq::<NodeV>::empty());
        }
        loop
            invariant
                self.wf(),
                self.spec_input() == input,
                n == input.len(),
                start <= self.spec_pos(),
                (match spec_parse_nodes(input, self.spec_pos()) {
                    Ok((rest, p)) => spec_parse_nodes(input, start) == Ok::<
                        (Seq<NodeV>, int),
                        ParseError,
                    >((node_views(nodes@) + rest, p)),
                    Err(e) => spec_parse_nodes(input, start) == Err::<
                        (Seq<NodeV>, int),
                        ParseError,
                    >(e),
                }),
            decreases n - self.spec_pos(),
        {
            let ghost head = self.spec_pos();
            self.consume_white_space();
            proof {
                crate::parser::lemma_scan_bounds(input, head, CharClass::Space);
                assert(scan(input, self.spec_pos(), CharClass::Space) == self.spec_pos());
                assert(spec_parse_nodes(input, head) == spec_parse_nodes(
                    input,
                    self.spec_pos(),
                )) by {
                    reveal_with_fuel(spec_parse_nodes, 2);
                }
            }
            if self.eof() {
                break ;
            }
            if self.next_char() == '<' && self.pos + 1 < n && self.next_char_at(1) == '/' {
                break ;
            }
            if self.next_char() == '<' && self.pos + 1 >= n {
                // a lone tag opener at the end of input opens nothing
                return Err(ParseError::Eof);
            }
            let ghost cur = self.spec_pos();
            match self.parse_node() {
                Ok(node) => {
                    let ghost nodev = node@;
                    let ghost old_nodes = nodes@;
                    nodes.push(node);
                    proof {
                        assert(nodes@.drop_last() =~= old_nodes);
                        assert(node_views(nodes@) =~= node_views(old_nodes).push(nodev));
                        match spec_parse_nodes(input, self.spec_pos()) {
                            Ok((rest, p)) => {
                                assert(node_views(old_nodes) + (seq![nodev] + rest)
                                    =~= node_views(nodes@) + rest);
                            },
                            Err(_) => {},
                        }
                    }
                },
                Err(e) => {
                    return Err(e);
                },
            }
        }
        Ok(nodes)
    }

    /// Parses an element: a tag, its children, and its closing tag —
    /// exactly the element the grammar denotes.
    fn parse_element(&mut self) -> (r: Result<DomNode, ParseError>)
        requires
            old(self).wf(),
            old(self).spec_pos() < old(self).spec_input().len(),
        ensures
            final(self).wf(),
            final(self).spec_input() == old(self).spec_input(),
            old(self).spec_pos() <= final(self).spec_pos(),
            match r {
                Ok(node) => spec_parse_element(old(self).spec_input(), old(self).spec_pos())
                    == Ok::<(NodeV, int), ParseError>((node@, final(self).spec_pos()))
                    && old(self).spec_pos() < final(self).spec_pos(),
                Err(e) => spec_parse_element(old(self).spec_input(), old(self).spec_pos())
                    == Err::<(NodeV, int), ParseError>(e),
            },
        decreases old(self).spec_input().len() - old(self).spec_pos(), 0int,
    {
        let (tag_type, attributes) = match self.parse_tag() {
            Ok(t) => t,
            Err(e) => {
                return Err(e);
            },
        };
        let ghost attrs = attributes@;
        let children = match self.parse_nodes() {
            Ok(c) => c,
            Err(e) => {
                return Err(e);
            },
        };
        match self.expect_char('<') {
            Ok(()) => {},
            Err(e) => {
                return Err(e);
            },
        }
        match self.expect_char('/') {
            Ok(()) => {},
            Err(e) => {
                return Err(e);
            },
        }
        let _ = self.consume_class(CharClass::NotGt);
        match self.expect_char('>') {
            Ok(()) => {},
            Err(e) => {
                return Err(e);
            },
        }
        let ghost kids = node_views(children@);
        let node = new_element(tag_type, attributes, children);
        proof {
            assert(node@.kind == NodeKindV::Element(ElemV { tag: tag_type, attrs }));
            assert(node@.children =~= kids);
            assert(node@ =~= (NodeV {
                kind: NodeKindV::Element(ElemV { tag: tag_type, attrs }),
                children: kids,
            }));
        }
        Ok(node)
    }

    /// Parses a whole document: exactly the grammar's top-level nodes
    /// under a synthetic html root carrying no attributes.
    pub fn parse(&mut self) -> (r: Result<DomNode, ParseError>)
        requires
            old(self).wf(),
        ensures
            final(self).wf(),
            match r {
                Ok(node) => spec_parse_nodes(old(self).spec_input(), old(self).spec_pos())
                    matches Ok((kids, p)) && final(self).spec_pos() == p && node@ == (NodeV {
                    kind: NodeKindV::Element(ElemV { tag: TagType::Html, attrs: Seq::empty() }),
                    children: kids,
                }),
                Err(e) => spec_parse_nodes(old(self).spec_input(), old(self).spec_pos()) == Err::<
                    (Seq<NodeV>, int),
                    ParseError,
                >(e),
            },
    {
        let children = match self.parse_nodes() {
            Ok(c) => c,
            Err(e) => {
                return Err(e);
            },
        };
        let ghost kids = node_views(children@);
        let attrs = AttrMap::new();
        let ghost av = attrs@;
        let node = new_element(TagType::Html, attrs, children);
        proof {
            assert(av =~= Seq::<(Seq<char>, Seq<char>)>::empty());
            assert(node@.kind == NodeKindV::Element(ElemV { tag: TagType::Html, attrs: av }));
            assert(node@.children =~= kids);
            assert(node@ =~= (NodeV {
                kind: NodeKindV::Element(ElemV { tag: TagType::Html, attrs: Seq::empty() }),
                children: kids,
            }));
        }
        Ok(node)
    }
}

impl IParser for HTMLParser {
    type Output = Result<DomNode, ParseError>;

    fn new(input: &str) -> Self {
        HTMLParser::new(input)
    }

    fn parse(&mut self) -> Self::Output {
        // a parser built by `new` always stands inside its input; the
        // check keeps this trait entry total for any value
        if self.pos > self.input.as_str().unicode_len() {
            return Err(ParseError::Eof);
        }
        HTMLParser::parse(self)
    }
}

} // verus!
