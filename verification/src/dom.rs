//! The document tree: nodes are text or elements; an element carries a
//! tag, an attribute map and ordered children.
use vstd::prelude::*;

use crate::text::{split_spaces, split_spaces_exec, str_eq, string_eq_str, trim, trim_spaces};

verus! {

#[derive(Debug, Clone, Copy, PartialEq, Eq, Structural)]
pub enum TagType {
    Html,
    Div,
    P,
    Span,
    Style,
}

/// An attribute map: ordered (name, value) pairs, earliest pair wins on
/// lookup, insertion puts the new pair first so it shadows older ones.
#[derive(Debug)]
pub struct AttrMap {
    entries: Vec<(String, String)>,
}

impl View for AttrMap {
    type V = Seq<(Seq<char>, Seq<char>)>;

    closed spec fn view(&self) -> Seq<(Seq<char>, Seq<char>)> {
        Seq::new(self.entries@.len(), |i: int| (self.entries@[i].0@, self.entries@[i].1@))
    }
}

/// The value bound to `key`: that of the first pair naming it.
pub open spec fn attrs_get(attrs: Seq<(Seq<char>, Seq<char>)>, key: Seq<char>) -> Option<
    Seq<char>,
>
    decreases attrs.len(),
{
    if attrs.len() == 0 {
        None
    } else if attrs[0].0 == key {
        Some(attrs[0].1)
    } else {
        attrs_get(attrs.drop_first(), key)
    }
}

proof fn lemma_attrs_get_found(attrs: Seq<(Seq<char>, Seq<char>)>, key: Seq<char>, i: int)
    requires
        0 <= i < attrs.len(),
        forall|k: int| 0 <= k < i ==> attrs[k].0 != key,
        attrs[i].0 == key,
    ensures
        attrs_get(attrs, key) == Some(attrs[i].1),
    decreases i,
{
    if i > 0 {
        lemma_attrs_get_found(attrs.drop_first(), key, i - 1);
    }
}

proof fn lemma_attrs_get_missing(attrs: Seq<(Seq<char>, Seq<char>)>, key: Seq<char>)
    requires
        forall|k: int| 0 <= k < attrs.len() ==> attrs[k].0 != key,
    ensures
        attrs_get(attrs, key) is None,
    decreases attrs.len(),
{
    if attrs.len() > 0 {
        lemma_attrs_get_missing(attrs.drop_first(), key);
    }
}

impl AttrMap {
    pub fn new() -> (r: AttrMap)
        ensures
            r@ =~= Seq::<(Seq<char>, Seq<char>)>::empty(),
    {
        let r = AttrMap { entries: Vec::new() };
        proof {
            assert(r@ =~= Seq::<(Seq<char>, Seq<char>)>::empty());
        }
        r
    }

    /// Binds `key` to `value`, shadowing any earlier binding.
    pub fn insert(&mut self, key: String, value: String)
        ensures
            final(self)@ =~= seq![(key@, value@)] + old(self)@,
    {
        let ghost k = key@;
        let ghost v = value@;
        self.entries.insert(0, (key, value));
        proof {
            assert(final(self)@ =~= seq![(k, v)] + old(self)@);
        }
    }

    pub fn get(&self, key: &str) -> (r: Option<&String>)
        ensures
            match r {
                Some(v) => attrs_get(self@, key@) == Some(v@),
                None => attrs_get(self@, key@) is None,
            },
    {
        let mut i: usize = 0;
        while i < self.entries.len()
            invariant
                0 <= i <= self.entries.len(),
                forall|k: int| 0 <= k < i ==> self@[k].0 != key@,
            decreases self.entries.len() - i,
        {
            if string_eq_str(&self.entries[i].0, key) {
                proof {
                    lemma_attrs_get_found(self@, key@, i as int);
                }
                return Some(&self.entries[i].1);
            }
            i = i + 1;
        }
        proof {
            lemma_attrs_get_missing(self@, key@);
        }
        None
    }

    /// An element-wise copy.
    pub fn duplicate(&self) -> (r: AttrMap)
        ensures
            r@ == self@,
    {
        let mut entries: Vec<(String, String)> = Vec::new();
        let mut i: usize = 0;
        while i < self.entries.len()
            invariant
                0 <= i <= self.entries.len(),
                entries@.len() == i,
                forall|k: int|
                    0 <= k < i ==> entries@[k].0@ == self@[k].0 && entries@[k].1@ == self@[k].1,
            decreases self.entries.len() - i,
        {
            let k = self.entries[i].0.clone();
            let v = self.entries[i].1.clone();
            entries.push((k, v));
            i = i + 1;
        }
        let r = AttrMap { entries };
        proof {
            assert(r@ =~= self@);
        }
        r
    }
}

/// The ghost model of an element: its tag and attribute pairs.
#[verifier::ext_equal]
pub struct ElemV {
    pub tag: TagType,
    pub attrs: Seq<(Seq<char>, Seq<char>)>,
}

#[derive(Debug)]
pub struct ElementData {
    pub tag_type: TagType,
    pub attributes: AttrMap,
}

impl View for ElementData {
    type V = ElemV;

    open spec fn view(&self) -> ElemV {
        ElemV { tag: self.tag_type, attrs: self.attributes@ }
    }
}

/// The element's `id` attribute, if any.
pub open spec fn elem_id(e: ElemV) -> Option<Seq<char>> {
    attrs_get(e.attrs, "id"@)
}

/// The element's class tokens: its `class` attribute split on spaces.
pub open spec fn elem_classes(e: ElemV) -> Seq<Seq<char>> {
    match attrs_get(e.attrs, "class"@) {
        Some(s) => split_spaces(s),
        None => Seq::empty(),
    }
}

/// Whether `c` is among the element's class tokens.
pub open spec fn elem_has_class(e: ElemV, c: Seq<char>) -> bool {
    elem_classes(e).contains(c)
}

impl ElementData {
    pub fn id(&self) -> (r: Option<&String>)
        ensures
            match r {
                Some(v) => elem_id(self@) == Some(v@),
                None => elem_id(self@) is None,
            },
    {
        self.attributes.get("id")
    }

    /// The class tokens of this element, in attribute order.
    pub fn classes(&self) -> (r: Vec<String>)
        ensures
            r@.len() == elem_classes(self@).len(),
            forall|k: int| 0 <= k < r@.len() ==> r@[k]@ == elem_classes(self@)[k],
    {
        match self.attributes.get("class") {
            Some(s) => split_spaces_exec(s.as_str()),
            None => Vec::new(),
        }
    }

    pub fn has_class(&self, c: &str) -> (r: bool)
        ensures
            r == elem_has_class(self@, c@),
    {
        let classes = self.classes();
        let mut i: usize = 0;
        while i < classes.len()
            invariant
                0 <= i <= classes.len(),
                classes@.len() == elem_classes(self@).len(),
                forall|k: int| 0 <= k < classes@.len() ==> classes@[k]@ == elem_classes(self@)[k],
                forall|k: int| 0 <= k < i ==> elem_classes(self@)[k] != c@,
            decreases classes.len() - i,
        {
            if string_eq_str(&classes[i], c) {
                proof {
                    assert(elem_classes(self@)[i as int] == c@);
                    assert(elem_classes(self@).contains(c@));
                }
                return true;
            }
            i = i + 1;
        }
        false
    }

    pub fn duplicate(&self) -> (r: ElementData)
        ensures
            r@ == self@,
    {
        let r = ElementData { tag_type: self.tag_type, attributes: self.attributes.duplicate() };
        proof {
            assert(r@ =~= self@);
        }
        r
    }
}

#[derive(Debug)]
pub enum NodeType {
    Text(String),
    Element(ElementData),
}

/// The ghost model of a node's own content.
#[verifier::ext_equal]
pub enum NodeKindV {
    Text(Seq<char>),
    Element(ElemV),
}

/// The ghost model of a document node.
#[verifier::ext_equal]
pub struct NodeV {
    pub kind: NodeKindV,
    pub children: Seq<NodeV>,
}

#[derive(Debug)]
pub struct DomNode {
    node_type: NodeType,
    children: Vec<DomNode>,
}

pub closed spec fn node_view(n: &DomNode) -> NodeV
    decreases n,
{
    NodeV {
        kind: match &n.node_type {
            NodeType::Text(s) => NodeKindV::Text(s@),
            NodeType::Element(e) => NodeKindV::Element(e@),
        },
        children: Seq::new(
            n.children@.len(),
            |i: int|
                if 0 <= i < n.children@.len() {
                    node_view(&n.children@[i])
                } else {
                    arbitrary()
                },
        ),
    }
}

impl View for DomNode {
    type V = NodeV;

    open spec fn view(&self) -> NodeV {
        node_view(self)
    }
}

/// The node's tag, when it is an element.
pub open spec fn node_tag(n: NodeV) -> Option<TagType> {
    match n.kind {
        NodeKindV::Text(_) => None,
        NodeKindV::Element(e) => Some(e.tag),
    }
}

impl DomNode {
    pub fn new(node_type: NodeType, children: Vec<DomNode>) -> (r: DomNode)
        ensures
            r@.kind == (match node_type {
                NodeType::Text(s) => NodeKindV::Text(s@),
                NodeType::Element(e) => NodeKindV::Element(e@),
            }),
            r@.children.len() == children@.len(),
            forall|k: int| 0 <= k < children@.len() ==> r@.children[k] == children@[k]@,
    {
        DomNode { node_type, children }
    }

    pub fn get_children(&self) -> (r: &Vec<DomNode>)
        ensures
            r@.len() == self@.children.len(),
            forall|k: int| 0 <= k < r@.len() ==> r@[k]@ == self@.children[k],
    {
        &self.children
    }

    pub fn get_node_type(&self) -> (r: &NodeType)
        ensures
            match r {
                NodeType::Text(s) => self@.kind == NodeKindV::Text(s@),
                NodeType::Element(e) => self@.kind == NodeKindV::Element(e@),
            },
    {
        &self.node_type
    }

    pub fn get_tag_type(&self) -> (r: Option<TagType>)
        ensures
            r == node_tag(self@),
    {
        match &self.node_type {
            NodeType::Text(_) => None,
            NodeType::Element(e) => Some(e.tag_type),
        }
    }

    /// A structural copy.
    pub fn duplicate(&self) -> (r: DomNode)
        ensures
            r@ == self@,
        decreases self@,
    {
        let node_type = match &self.node_type {
            NodeType::Text(s) => NodeType::Text(s.clone()),
            NodeType::Element(e) => NodeType::Element(e.duplicate()),
        };
        let mut children: Vec<DomNode> = Vec::new();
        let mut i: usize = 0;
        while i < self.children.len()
            invariant
                0 <= i <= self.children.len(),
                children@.len() == i,
                forall|k: int| 0 <= k < i ==> children@[k]@ == self@.children[k],
            decreases self.children.len() - i,
        {
            proof {
                assert(self@.children[i as int] == self.children@[i as int]@);
                assert(decreases_to!(self@ => self@.children));
                assert(decreases_to!(self@.children => self@.children[i as int]));
            }
            let c = self.children[i].duplicate();
            children.push(c);
            i = i + 1;
        }
        let r = DomNode { node_type, children };
        proof {
            assert(r@.children =~= self@.children);
            assert(r@ =~= self@);
        }
        r
    }
}

/// A text node holding `content` with surrounding whitespace removed.
pub fn new_text(content: &str, children: Vec<DomNode>) -> (r: DomNode)
    ensures
        r@.kind == NodeKindV::Text(trim_spaces(content@)),
        r@.children.len() == children@.len(),
        forall|k: int| 0 <= k < children@.len() ==> r@.children[k] == children@[k]@,
{
    DomNode { children, node_type: NodeType::Text(trim(content)) }
}

pub fn new_element(tag_type: TagType, attributes: AttrMap, children: Vec<DomNode>) -> (r: DomNode)
    ensures
        r@.kind == NodeKindV::Element(ElemV { tag: tag_type, attrs: attributes@ }),
        r@.children.len() == children@.len(),
        forall|k: int| 0 <= k < children@.len() ==> r@.children[k] == children@[k]@,
{
    DomNode { children, node_type: NodeType::Element(ElementData { tag_type, attributes }) }
}


/// The source name of a tag.
pub open spec fn tag_str(t: TagType) -> Seq<char> {
    match t {
        TagType::Html => "html"@,
        TagType::Div => "div"@,
        TagType::P => "p"@,
        TagType::Span => "span"@,
        TagType::Style => "style"@,
    }
}

impl TagType {
    /// The tag's source name.
    pub fn to_css_string(&self) -> (r: String)
        ensures
            r@ == tag_str(*self),
    {
        match self {
            TagType::Html => "html".to_owned(),
            TagType::Div => "div".to_owned(),
            TagType::P => "p".to_owned(),
            TagType::Span => "span".to_owned(),
            TagType::Style => "style".to_owned(),
        }
    }
}

} // verus!
