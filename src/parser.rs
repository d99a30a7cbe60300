use vstd::prelude::*;

use crate::document::{
    attrs_view, doc_keys_unique, node_view, nodes_view, AttrsV, ElemV, NodeV, XmlDocument, XmlElement, XmlNode,
};
use crate::laws::lemma_built_keys_unique;
use crate::token::{toks_view, Tok, Token};

verus! {

/// Why a token sequence does not form a document.
#[derive(Debug)]
pub enum ParseError {
    MismatchedTags,
    IncompleteDocument,
    UnexpectedToken(Token),
    EmptyStack,
}

/// Where the tree builder stands between two tokens: the open elements (innermost
/// last), the attributes waiting for the next tag, and the finished root.
pub struct BuildState {
    pub stack: Seq<ElemV>,
    pub pending: AttrsV,
    pub root: Option<ElemV>,
}

/// The state before the first token.
pub open spec fn initial_state() -> BuildState {
    BuildState { stack: Seq::empty(), pending: Seq::empty(), root: None }
}

/// The first index at or after `i` of an attribute named `k`, or the length if there is none.
pub open spec fn attr_pos(a: AttrsV, k: Seq<char>, i: int) -> int
    decreases a.len() - i,
{
    if i < 0 || i >= a.len() || a[i].0 == k {
        i
    } else {
        attr_pos(a, k, i + 1)
    }
}

/// `a` with `k` set to `v`: a value already held under `k` is replaced in place, else the
/// pair is added at the end.
pub open spec fn attr_insert(a: AttrsV, k: Seq<char>, v: Seq<char>) -> AttrsV {
    let j = attr_pos(a, k, 0);
    if j < a.len() {
        a.update(j, (k, v))
    } else {
        a.push((k, v))
    }
}

/// A new element with the given name and attributes and no children.
pub open spec fn leaf(name: Seq<char>, attrs: AttrsV) -> ElemV {
    ElemV { name, attrs, children: Seq::empty() }
}

/// `stack` with `n` added as the last child of its innermost element.
pub open spec fn with_child(stack: Seq<ElemV>, n: NodeV) -> Seq<ElemV> {
    let top = stack.last();
    stack.update(
        stack.len() - 1,
        ElemV { name: top.name, attrs: top.attrs, children: top.children.push(n) },
    )
}

/// `st` with `n` attached to the innermost open element; dropped when none is open.
pub open spec fn attach_node(st: BuildState, n: NodeV) -> BuildState {
    if st.stack.len() > 0 {
        BuildState { stack: with_child(st.stack, n), ..st }
    } else {
        st
    }
}

/// The effect of one token other than `EndOfFile`.
pub open spec fn step(st: BuildState, t: Tok) -> Result<BuildState, ParseError> {
    match t {
        Tok::OpenTag(n) => Ok(
            BuildState {
                stack: st.stack.push(leaf(n, st.pending)),
                pending: Seq::empty(),
                root: st.root,
            },
        ),
        Tok::CloseTag(n) => if st.stack.len() == 0 {
            Err(ParseError::EmptyStack)
        } else if st.stack.last().name != n {
            Err(ParseError::MismatchedTags)
        } else if st.stack.len() == 1 {
            if st.root is None {
                Ok(BuildState { stack: Seq::empty(), root: Some(st.stack.last()), ..st })
            } else {
                Err(ParseError::MismatchedTags)
            }
        } else {
            Ok(
                BuildState {
                    stack: with_child(st.stack.drop_last(), NodeV::Element(st.stack.last())),
                    ..st
                },
            )
        },
        Tok::SelfClosingTag(n) => if st.stack.len() > 0 {
            Ok(
                BuildState {
                    stack: with_child(st.stack, NodeV::Element(leaf(n, st.pending))),
                    pending: Seq::empty(),
                    root: st.root,
                },
            )
        } else if st.root is None {
            Ok(BuildState { stack: st.stack, pending: Seq::empty(), root: Some(leaf(n, st.pending)) })
        } else {
            Err(ParseError::MismatchedTags)
        },
        Tok::Attribute(k, v) => Ok(BuildState { pending: attr_insert(st.pending, k, v), ..st }),
        Tok::Text(c) => Ok(attach_node(st, NodeV::Text(c))),
        Tok::Comment(c) => Ok(attach_node(st, NodeV::Comment(c))),
        _ => Ok(st),
    }
}

/// The document that the tokens from `i` on complete from state `st`: at `EndOfFile`, or at
/// the end of the sequence, every element must be closed.
pub open spec fn build_from(ts: Seq<Tok>, i: int, st: BuildState) -> Result<Option<ElemV>, ParseError>
    decreases ts.len() - i,
{
    if i < 0 || i >= ts.len() || ts[i] is EndOfFile {
        if st.stack.len() == 0 {
            Ok(st.root)
        } else {
            Err(ParseError::IncompleteDocument)
        }
    } else {
        match step(st, ts[i]) {
            Err(e) => Err(e),
            Ok(next) => build_from(ts, i + 1, next),
        }
    }
}

/// The root of the document that a token sequence describes, or the error that stops it.
pub open spec fn build(ts: Seq<Tok>) -> Result<Option<ElemV>, ParseError> {
    build_from(ts, 0, initial_state())
}

/// The value of what `parse_tokens` returns.
pub open spec fn document_view(r: Result<XmlDocument, ParseError>) -> Result<Option<ElemV>, ParseError> {
    match r {
        Ok(d) => Ok(d@),
        Err(e) => Err(e),
    }
}

pub open spec fn stack_view(s: Seq<XmlElement>) -> Seq<ElemV> {
    s.map_values(|e: XmlElement| e@)
}

proof fn lemma_nodes_view_push(ns: Seq<XmlNode>, n: XmlNode)
    ensures
        nodes_view(ns.push(n)) == nodes_view(ns).push(node_view(n)),
{
    assert(ns.push(n).drop_last() =~= ns);
}

/// Adds `node` as the last child of the innermost open element.
fn attach(stack: &mut Vec<XmlElement>, node: XmlNode)
    requires
        old(stack)@.len() > 0,
    ensures
        stack_view(final(stack)@) == with_child(stack_view(old(stack)@), node@),
{
    let ghost old_view = stack_view(stack@);
    let mut parent = stack.pop().unwrap();
    let ghost kids = parent.children@;
    parent.children.push(node);
    proof {
        lemma_nodes_view_push(kids, node);
    }
    stack.push(parent);
    assert(stack_view(stack@) =~= with_child(old_view, node@));
}

fn insert_attribute(pending: &mut Vec<(String, String)>, name: String, value: String)
    ensures
        attrs_view(final(pending)@) == attr_insert(attrs_view(old(pending)@), name@, value@),
{
    let ghost a = attrs_view(pending@);
    let mut i: usize = 0;
    while i < pending.len()
        invariant
            i <= pending@.len(),
            a == attrs_view(pending@),
            pending@ == old(pending)@,
            attr_pos(a, name@, 0) == attr_pos(a, name@, i as int),
        decreases pending@.len() - i,
    {
        if pending[i].0 == name {
            pending.set(i, (name, value));
            assert(attrs_view(pending@) =~= a.update(i as int, (name@, value@)));
            return;
        }
        i = i + 1;
    }
    pending.push((name, value));
    assert(attrs_view(pending@) =~= a.push((name@, value@)));
}

/// The value of the builder's exec state.
pub open spec fn state_view(
    stack: Seq<XmlElement>,
    pending: Seq<(String, String)>,
    root: Option<XmlElement>,
) -> BuildState {
    BuildState {
        stack: stack_view(stack),
        pending: attrs_view(pending),
        root: match root {
            Some(e) => Some(e@),
            None => None,
        },
    }
}

fn new_element(name: &String, attributes: Vec<(String, String)>) -> (e: XmlElement)
    ensures
        e@ == leaf(name@, attrs_view(attributes@)),
{
    let e = XmlElement { name: name.clone(), attributes, children: Vec::new() };
    assert(nodes_view(e.children@) =~= Seq::<NodeV>::empty());
    e
}

fn finish(stack: &Vec<XmlElement>, root: Option<XmlElement>) -> (r: Result<XmlDocument, ParseError>)
    ensures
        document_view(r) == (if stack@.len() == 0 {
            Ok::<Option<ElemV>, ParseError>(
                match root {
                    Some(e) => Some(e@),
                    None => None,
                },
            )
        } else {
            Err(ParseError::IncompleteDocument)
        }),
{
    if stack.len() == 0 {
        Ok(XmlDocument { root })
    } else {
        Err(ParseError::IncompleteDocument)
    }
}

/// Builds the document tree from a token sequence, failing on the first token that breaks
/// the nesting rules or when elements are left open.
pub fn parse_tokens(tokens: Vec<Token>) -> (r: Result<XmlDocument, ParseError>)
    ensures
        document_view(r) == build(toks_view(tokens@)),
        r is Ok ==> doc_keys_unique(r->Ok_0@),
{
    let ghost ts = toks_view(tokens@);
    proof {
        if build(ts) is Ok {
            lemma_built_keys_unique(ts);
        }
    }
    let mut stack: Vec<XmlElement> = Vec::new();
    let mut pending: Vec<(String, String)> = Vec::new();
    let mut root: Option<XmlElement> = None;
    let mut i: usize = 0;
    proof {
        assert(stack_view(stack@) =~= Seq::<ElemV>::empty());
        assert(attrs_view(pending@) =~= Seq::<(Seq<char>, Seq<char>)>::empty());
    }
    while i < tokens.len()
        invariant
            i <= tokens@.len(),
            ts == toks_view(tokens@),
            build(ts) == build_from(ts, i as int, state_view(stack@, pending@, root)),
            build(ts) is Ok ==> doc_keys_unique(build(ts)->Ok_0),
        decreases tokens@.len() - i,
    {
        let ghost st = state_view(stack@, pending@, root);
        assert(ts[i as int] == tokens@[i as int]@);
        match &tokens[i] {
            Token::OpenTag(name) => {
                let attrs = pending;
                pending = Vec::new();
                let element = new_element(name, attrs);
                stack.push(element);
                assert(stack_view(stack@) =~= st.stack.push(element@));
                assert(attrs_view(pending@) =~= Seq::<(Seq<char>, Seq<char>)>::empty());
            },
            Token::CloseTag(name) => {
                let ghost before = stack@;
                let element = match stack.pop() {
                    Some(e) => e,
                    None => {
                        return Err(ParseError::EmptyStack);
                    },
                };
                assert(stack_view(stack@) =~= st.stack.drop_last());
                assert(element@ == st.stack.last());
                if !(element.name == *name) {
                    return Err(ParseError::MismatchedTags);
                }
                if stack.len() > 0 {
                    attach(&mut stack, XmlNode::Element(element));
                } else if root.is_none() {
                    assert(stack_view(stack@) =~= Seq::<ElemV>::empty());
                    root = Some(element);
                } else {
                    return Err(ParseError::MismatchedTags);
                }
            },
            Token::SelfClosingTag(name) => {
                let attrs = pending;
                pending = Vec::new();
                let element = new_element(name, attrs);
                assert(attrs_view(pending@) =~= Seq::<(Seq<char>, Seq<char>)>::empty());
                if stack.len() > 0 {
                    attach(&mut stack, XmlNode::Element(element));
                } else if root.is_none() {
                    root = Some(element);
                } else {
                    return Err(ParseError::MismatchedTags);
                }
            },
            Token::Attribute(name, value) => {
                insert_attribute(&mut pending, name.clone(), value.clone());
            },
            Token::Text(content) => {
                if stack.len() > 0 {
                    attach(&mut stack, XmlNode::Text(content.clone()));
                }
            },
            Token::Comment(content) => {
                if stack.len() > 0 {
                    attach(&mut stack, XmlNode::Comment(content.clone()));
                }
            },
            Token::XmlDeclaration => {},
            Token::EndOfFile => {
                return finish(&stack, root);
            },
        }
        assert(step(st, ts[i as int]) == Ok::<BuildState, ParseError>(
            state_view(stack@, pending@, root),
        ));
        i = i + 1;
    }
    finish(&stack, root)
}

} // verus!
