use vstd::prelude::*;

use crate::text::{chars_of, string_of};

verus! {

/// A node of the tree: an element, a run of text, or a comment.
#[derive(Debug)]
pub enum XmlNode {
    Element(XmlElement),
    Text(String),
    Comment(String),
}

/// An element: its name, its attributes as (name, value) pairs, and its children in
/// document order.
#[derive(Debug)]
pub struct XmlElement {
    pub name: String,
    pub attributes: Vec<(String, String)>,
    pub children: Vec<XmlNode>,
}

/// A parsed document, with its root element when there is one.
#[derive(Debug)]
pub struct XmlDocument {
    pub root: Option<XmlElement>,
}

/// Attributes as (name, value) pairs of character sequences.
pub type AttrsV = Seq<(Seq<char>, Seq<char>)>;

/// The mathematical value of an element.
pub struct ElemV {
    pub name: Seq<char>,
    pub attrs: AttrsV,
    pub children: Seq<NodeV>,
}

/// The mathematical value of a node.
pub enum NodeV {
    Element(ElemV),
    Text(Seq<char>),
    Comment(Seq<char>),
}

pub open spec fn attrs_view(a: Seq<(String, String)>) -> AttrsV {
    a.map_values(|p: (String, String)| (p.0@, p.1@))
}

pub open spec fn elem_view(e: XmlElement) -> ElemV
    decreases e,
{
    ElemV {
        name: e.name@,
        attrs: attrs_view(e.attributes@),
        children: nodes_view(e.children@),
    }
}

pub open spec fn nodes_view(ns: Seq<XmlNode>) -> Seq<NodeV>
    decreases ns,
{
    if ns.len() == 0 {
        Seq::empty()
    } else {
        nodes_view(ns.drop_last()).push(node_view(ns.last()))
    }
}

pub open spec fn node_view(n: XmlNode) -> NodeV
    decreases n,
{
    match n {
        XmlNode::Element(e) => NodeV::Element(elem_view(e)),
        XmlNode::Text(t) => NodeV::Text(t@),
        XmlNode::Comment(c) => NodeV::Comment(c@),
    }
}

impl View for XmlElement {
    type V = ElemV;

    open spec fn view(&self) -> ElemV {
        elem_view(*self)
    }
}

impl View for XmlNode {
    type V = NodeV;

    open spec fn view(&self) -> NodeV {
        node_view(*self)
    }
}

impl View for XmlDocument {
    type V = Option<ElemV>;

    open spec fn view(&self) -> Option<ElemV> {
        match self.root {
            Some(e) => Some(e@),
            None => None,
        }
    }
}

pub proof fn lemma_nodes_view(ns: Seq<XmlNode>)
    ensures
        nodes_view(ns).len() == ns.len(),
        forall|i: int| 0 <= i < ns.len() ==> #[trigger] nodes_view(ns)[i] == node_view(ns[i]),
    decreases ns.len(),
{
    if ns.len() > 0 {
        lemma_nodes_view(ns.drop_last());
        assert forall|i: int| 0 <= i < ns.len() implies #[trigger] nodes_view(ns)[i] == node_view(
            ns[i],
        ) by {
            if i < ns.len() - 1 {
                assert(ns.drop_last()[i] == ns[i]);
            }
        }
    }
}

/// No two attributes share a name.
pub open spec fn keys_unique(a: AttrsV) -> bool {
    forall|i: int, j: int| 0 <= i < j < a.len() ==> #[trigger] a[i].0 != #[trigger] a[j].0
}

/// Every element of the tree has attributes with distinct names.
pub open spec fn elem_keys_unique(e: ElemV) -> bool
    decreases e,
{
    keys_unique(e.attrs) && nodes_keys_unique(e.children)
}

pub open spec fn nodes_keys_unique(ns: Seq<NodeV>) -> bool
    decreases ns,
{
    if ns.len() == 0 {
        true
    } else {
        nodes_keys_unique(ns.drop_last()) && node_keys_unique(ns.last())
    }
}

pub open spec fn node_keys_unique(n: NodeV) -> bool
    decreases n,
{
    match n {
        NodeV::Element(e) => elem_keys_unique(e),
        _ => true,
    }
}

/// Every element of a document has attributes with distinct names.
pub open spec fn doc_keys_unique(d: Option<ElemV>) -> bool {
    match d {
        Some(r) => elem_keys_unique(r),
        None => true,
    }
}

/// The first child element of `ns` named `name`.
pub open spec fn first_named(ns: Seq<NodeV>, name: Seq<char>) -> Option<ElemV>
    decreases ns.len(),
{
    if ns.len() == 0 {
        None
    } else {
        match ns[0] {
            NodeV::Element(e) => if e.name == name {
                Some(e)
            } else {
                first_named(ns.drop_first(), name)
            },
            _ => first_named(ns.drop_first(), name),
        }
    }
}

/// The contents of the text nodes of `ns`, joined in order.
pub open spec fn joined_text(ns: Seq<NodeV>) -> Seq<char>
    decreases ns.len(),
{
    if ns.len() == 0 {
        Seq::empty()
    } else {
        match ns.last() {
            NodeV::Text(t) => joined_text(ns.drop_last()) + t,
            _ => joined_text(ns.drop_last()),
        }
    }
}

/// The value of the first attribute named `name`.
pub open spec fn attr_lookup(attrs: AttrsV, name: Seq<char>) -> Option<Seq<char>>
    decreases attrs.len(),
{
    if attrs.len() == 0 {
        None
    } else if attrs[0].0 == name {
        Some(attrs[0].1)
    } else {
        attr_lookup(attrs.drop_first(), name)
    }
}

/// The pieces of `p` between `/` characters, as `str::split('/')` gives them.
pub open spec fn split_slash(p: Seq<char>) -> Seq<Seq<char>>
    decreases p.len(),
{
    if p.len() == 0 {
        seq![Seq::empty()]
    } else if p.last() == '/' {
        split_slash(p.drop_last()).push(Seq::empty())
    } else {
        let parts = split_slash(p.drop_last());
        parts.update(parts.len() - 1, parts.last().push(p.last()))
    }
}

/// The element reached from `e` by following the non-empty names of `parts`.
pub open spec fn descend(e: ElemV, parts: Seq<Seq<char>>) -> Option<ElemV>
    decreases parts.len(),
{
    if parts.len() == 0 {
        Some(e)
    } else {
        match descend(e, parts.drop_last()) {
            None => None,
            Some(c) => if parts.last().len() == 0 {
                Some(c)
            } else {
                first_named(c.children, parts.last())
            },
        }
    }
}

/// The value of an optional element reference.
pub open spec fn opt_elem(r: Option<&XmlElement>) -> Option<ElemV> {
    match r {
        Some(e) => Some(e@),
        None => None,
    }
}

impl XmlElement {
    /// The first direct child element named `name`, if any.
    pub fn find_child_by_name(&self, name: &str) -> (r: Option<&XmlElement>)
        ensures
            opt_elem(r) == first_named(self@.children, name@),
    {
        let target = String::from_str(name);
        let ghost ns = self@.children;
        proof {
            lemma_nodes_view(self.children@);
            assert(ns.subrange(0, ns.len() as int) =~= ns);
        }
        let mut i: usize = 0;
        while i < self.children.len()
            invariant
                i <= self.children@.len(),
                ns == self@.children,
                ns.len() == self.children@.len(),
                forall|k: int| 0 <= k < ns.len() ==> #[trigger] ns[k] == node_view(self.children@[k]),
                first_named(ns, name@) == first_named(ns.subrange(i as int, ns.len() as int), name@),
                target@ == name@,
            decreases self.children@.len() - i,
        {
            let ghost rest = ns.subrange(i as int, ns.len() as int);
            assert(rest[0] == ns[i as int]);
            assert(rest.drop_first() =~= ns.subrange(i + 1, ns.len() as int));
            if let XmlNode::Element(element) = &self.children[i] {
                if element.name == target {
                    return Some(element);
                }
            }
            i = i + 1;
        }
        None
    }

    /// The text of the direct text children, joined in document order.
    pub fn get_text_content(&self) -> (r: String)
        ensures
            r@ == joined_text(self@.children),
    {
        let ghost ns = self@.children;
        proof {
            lemma_nodes_view(self.children@);
        }
        let mut out = String::new();
        let mut i: usize = 0;
        while i < self.children.len()
            invariant
                i <= self.children@.len(),
                ns == self@.children,
                ns.len() == self.children@.len(),
                forall|k: int| 0 <= k < ns.len() ==> #[trigger] ns[k] == node_view(self.children@[k]),
                out@ == joined_text(ns.subrange(0, i as int)),
            decreases self.children@.len() - i,
        {
            let ghost done = ns.subrange(0, i as int);
            assert(ns.subrange(0, i + 1).drop_last() =~= done);
            if let XmlNode::Text(content) = &self.children[i] {
                out = out.concat(content.as_str());
            }
            i = i + 1;
        }
        assert(ns.subrange(0, ns.len() as int) =~= ns);
        out
    }

    /// The value of the attribute named `name`, if the element has one.
    pub fn get_attribute(&self, name: &str) -> (r: Option<&String>)
        ensures
            match r {
                Some(v) => attr_lookup(self@.attrs, name@) == Some(v@),
                None => attr_lookup(self@.attrs, name@) is None,
            },
    {
        let target = String::from_str(name);
        let ghost attrs = self@.attrs;
        proof {
            assert(attrs.subrange(0, attrs.len() as int) =~= attrs);
        }
        let mut i: usize = 0;
        while i < self.attributes.len()
            invariant
                i <= self.attributes@.len(),
                attrs == self@.attrs,
                attrs == attrs_view(self.attributes@),
                attr_lookup(attrs, name@) == attr_lookup(
                    attrs.subrange(i as int, attrs.len() as int),
                    name@,
                ),
                target@ == name@,
            decreases self.attributes@.len() - i,
        {
            let ghost rest = attrs.subrange(i as int, attrs.len() as int);
            assert(rest[0] == attrs[i as int]);
            assert(rest.drop_first() =~= attrs.subrange(i + 1, attrs.len() as int));
            let pair = &self.attributes[i];
            if pair.0 == target {
                return Some(&pair.1);
            }
            i = i + 1;
        }
        None
    }
}

impl XmlDocument {
    /// The root element, if the document has one.
    pub fn get_root_element(&self) -> (r: Option<&XmlElement>)
        ensures
            opt_elem(r) == self@,
    {
        self.root.as_ref()
    }

    /// Follows the `/`-separated names of `path` from the root, child by child; empty
    /// names are skipped.
    pub fn find_element_by_path(&self, path: &str) -> (r: Option<&XmlElement>)
        ensures
            opt_elem(r) == match self@ {
                Some(root) => descend(root, split_slash(path@)),
                None => None,
            },
    {
        let root_ref = match self.get_root_element() {
            Some(e) => e,
            None => {
                return None;
            },
        };
        let ghost root = root_ref@;
        let mut current: Option<&XmlElement> = Some(root_ref);
        let chars = chars_of(path);
        let ghost p = chars@;
        let mut segment: Vec<char> = Vec::new();
        let mut i: usize = 0;
        proof {
            assert(p.subrange(0, 0) =~= Seq::<char>::empty());
        }
        while i < chars.len()
            invariant
                i <= chars@.len(),
                p == chars@,
                p == path@,
                descend(root, split_slash(p.subrange(0, i as int)).drop_last()) == opt_elem(
                    current,
                ),
                segment@ == split_slash(p.subrange(0, i as int)).last(),
                self@ == Some(root),
            decreases chars@.len() - i,
        {
            let ghost before = p.subrange(0, i as int);
            let ghost after = p.subrange(0, i + 1);
            assert(after.drop_last() =~= before);
            assert(after.last() == chars@[i as int]);
            proof {
                lemma_split_slash_len(before);
            }
            if chars[i] == '/' {
                assert(split_slash(after).drop_last() =~= split_slash(before));
                if segment.len() > 0 {
                    if let Some(c) = current {
                        let name = string_of(segment.as_slice());
                        current = c.find_child_by_name(name.as_str());
                    }
                }
                segment = Vec::new();
            } else {
                assert(split_slash(after).drop_last() =~= split_slash(before).drop_last());
                segment.push(chars[i]);
            }
            i = i + 1;
        }
        proof {
            lemma_split_slash_len(p);
            assert(p.subrange(0, p.len() as int) =~= p);
        }
        if segment.len() > 0 {
            match current {
                Some(c) => {
                    let name = string_of(segment.as_slice());
                    c.find_child_by_name(name.as_str())
                },
                None => None,
            }
        } else {
            current
        }
    }
}

pub proof fn lemma_split_slash_len(p: Seq<char>)
    ensures
        split_slash(p).len() >= 1,
    decreases p.len(),
{
    if p.len() > 0 {
        lemma_split_slash_len(p.drop_last());
    }
}

} // verus!
