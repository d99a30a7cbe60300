use vstd::prelude::*;

use crate::document::{
    attr_lookup, doc_keys_unique, elem_keys_unique, keys_unique, node_keys_unique,
    nodes_keys_unique, AttrsV, ElemV, NodeV,
};
use crate::parser::{
    attach_node, attr_insert, attr_pos, build, build_from, initial_state, leaf, step, with_child,
    BuildState, ParseError,
};
use crate::lexer::{
    find_char, is_space, lex, lex_attribute, lex_attributes, lex_comment_body, lex_declaration,
    lex_from, lex_tag, name_end,
};
use crate::text::{trim_end, trim_start, trimmed, white};
use crate::token::Tok;

verus! {

/// The builder state after the tokens of `ts`, read one by one from `st`.
pub open spec fn run_tokens(st: BuildState, ts: Seq<Tok>) -> Result<BuildState, ParseError>
    decreases ts.len(),
{
    if ts.len() == 0 {
        Ok(st)
    } else {
        match run_tokens(st, ts.drop_last()) {
            Err(e) => Err(e),
            Ok(before) => step(before, ts.last()),
        }
    }
}

/// The builder state after the tokens of `ts`, read one by one from the start.
pub open spec fn prefix_state(ts: Seq<Tok>) -> Result<BuildState, ParseError> {
    run_tokens(initial_state(), ts)
}

/// No `EndOfFile` token stands before index `i`.
pub open spec fn no_end_before(ts: Seq<Tok>, i: int) -> bool {
    forall|k: int| 0 <= k < i ==> !(#[trigger] ts[k] is EndOfFile)
}

/// Building reads the first `i` tokens into a state and goes on from there.
pub proof fn lemma_build_split(ts: Seq<Tok>, i: int)
    requires
        0 <= i <= ts.len(),
        no_end_before(ts, i),
    ensures
        build(ts) == match prefix_state(ts.subrange(0, i)) {
            Ok(st) => build_from(ts, i, st),
            Err(e) => Err(e),
        },
    decreases i,
{
    if i == 0 {
        assert(ts.subrange(0, 0) =~= Seq::<Tok>::empty());
    } else {
        lemma_build_split(ts, i - 1);
        assert(ts.subrange(0, i).drop_last() =~= ts.subrange(0, i - 1));
        assert(!(ts[i - 1] is EndOfFile));
    }
}

/// A close tag whose name is not that of the innermost open element makes the whole
/// parse fail with `MismatchedTags`.
pub proof fn lemma_close_tag_must_match(ts: Seq<Tok>, i: int, name: Seq<char>)
    requires
        0 <= i < ts.len(),
        no_end_before(ts, i),
        ts[i] == Tok::CloseTag(name),
        prefix_state(ts.subrange(0, i)) is Ok,
        prefix_state(ts.subrange(0, i))->Ok_0.stack.len() > 0,
        prefix_state(ts.subrange(0, i))->Ok_0.stack.last().name != name,
    ensures
        build(ts) == Err::<Option<ElemV>, ParseError>(ParseError::MismatchedTags),
{
    lemma_build_split(ts, i);
}

/// Once a top-level element is complete, completing another top-level element (a
/// self-closing tag, or a close tag, at depth 0) makes the parse fail with `MismatchedTags`.
pub proof fn lemma_single_root(ts: Seq<Tok>, i: int)
    requires
        0 <= i < ts.len(),
        no_end_before(ts, i),
        prefix_state(ts.subrange(0, i)) is Ok,
        prefix_state(ts.subrange(0, i))->Ok_0.root is Some,
        (ts[i] is SelfClosingTag && prefix_state(ts.subrange(0, i))->Ok_0.stack.len() == 0) || (
        ts[i] is CloseTag && prefix_state(ts.subrange(0, i))->Ok_0.stack.len() == 1),
    ensures
        build(ts) == Err::<Option<ElemV>, ParseError>(ParseError::MismatchedTags),
{
    lemma_build_split(ts, i);
}

/// A self-closing tag does what an open tag of the same name followed at once by its
/// close tag does: the same element, with the waiting attributes and no children.
pub proof fn lemma_self_closing_equivalence(st: BuildState, name: Seq<char>)
    ensures
        step(st, Tok::SelfClosingTag(name)) == match step(st, Tok::OpenTag(name)) {
            Ok(opened) => step(opened, Tok::CloseTag(name)),
            Err(e) => Err(e),
        },
{
    let opened = step(st, Tok::OpenTag(name))->Ok_0;
    assert(opened.stack.drop_last() =~= st.stack);
    assert(opened.stack.last() == leaf(name, st.pending));
    if st.stack.len() == 0 {
        assert(opened.stack.drop_last() =~= Seq::<ElemV>::empty());
    }
}

/// An attribute token changes neither the open elements nor the root: it waits for the
/// next tag. The next open tag takes every waiting attribute and leaves none waiting, and
/// for a name given twice the later value is the one kept.
pub proof fn lemma_attribute_association(
    st: BuildState,
    k: Seq<char>,
    v: Seq<char>,
    other: Seq<char>,
    name: Seq<char>,
)
    ensures
        step(st, Tok::Attribute(k, v)) is Ok,
        step(st, Tok::Attribute(k, v))->Ok_0.stack == st.stack,
        step(st, Tok::Attribute(k, v))->Ok_0.root == st.root,
        step(st, Tok::Attribute(k, v))->Ok_0.pending == attr_insert(st.pending, k, v),
        attr_lookup(attr_insert(st.pending, k, v), k) == Some(v),
        other != k ==> attr_lookup(attr_insert(st.pending, k, v), other) == attr_lookup(
            st.pending,
            other,
        ),
        step(st, Tok::OpenTag(name)) is Ok,
        step(st, Tok::OpenTag(name))->Ok_0.stack == st.stack.push(leaf(name, st.pending)),
        step(st, Tok::OpenTag(name))->Ok_0.pending.len() == 0,
{
    lemma_insert_lookup(st.pending, k, v, other);
}

proof fn lemma_pos_lookup(a: AttrsV, k: Seq<char>, i: int)
    requires
        0 <= i <= a.len(),
        forall|j: int| 0 <= j < i ==> a[j].0 != k,
    ensures
        attr_pos(a, k, 0) == attr_pos(a, k, i),
        attr_lookup(a, k) == attr_lookup(a.subrange(i, a.len() as int), k),
    decreases i,
{
    if i > 0 {
        lemma_pos_lookup(a, k, i - 1);
        let rest = a.subrange(i - 1, a.len() as int);
        assert(rest.drop_first() =~= a.subrange(i, a.len() as int));
        assert(rest[0] == a[i - 1]);
    } else {
        assert(a.subrange(0, a.len() as int) =~= a);
    }
}

proof fn lemma_pos_found(a: AttrsV, k: Seq<char>, i: int)
    requires
        0 <= i <= a.len(),
    ensures
        i <= attr_pos(a, k, i) <= a.len(),
        attr_pos(a, k, i) < a.len() ==> a[attr_pos(a, k, i)].0 == k,
        forall|j: int| i <= j < attr_pos(a, k, i) ==> a[j].0 != k,
    decreases a.len() - i,
{
    if i < a.len() && a[i].0 != k {
        lemma_pos_found(a, k, i + 1);
    }
}

/// Looking up a name in `a` when its first index holding `k2` is `p`.
proof fn lemma_lookup_at(a: AttrsV, k2: Seq<char>, p: int)
    requires
        0 <= p <= a.len(),
        forall|j: int| 0 <= j < p ==> a[j].0 != k2,
        p < a.len() ==> a[p].0 == k2,
    ensures
        attr_lookup(a, k2) == if p < a.len() {
            Some(a[p].1)
        } else {
            None::<Seq<char>>
        },
{
    lemma_pos_lookup(a, k2, p);
    let rest = a.subrange(p, a.len() as int);
    if p < a.len() {
        assert(rest[0] == a[p]);
    }
}

proof fn lemma_insert_lookup(a: AttrsV, k: Seq<char>, v: Seq<char>, other: Seq<char>)
    ensures
        attr_lookup(attr_insert(a, k, v), k) == Some(v),
        other != k ==> attr_lookup(attr_insert(a, k, v), other) == attr_lookup(a, other),
{
    lemma_pos_found(a, k, 0);
    let p = attr_pos(a, k, 0);
    let b = attr_insert(a, k, v);
    lemma_lookup_at(b, k, p);
    if other != k {
        lemma_pos_found(a, other, 0);
        let q = attr_pos(a, other, 0);
        lemma_lookup_at(a, other, q);
        if q < a.len() {
            lemma_lookup_at(b, other, q);
        } else {
            lemma_lookup_at(b, other, b.len() as int);
        }
    }
}

/// The number of elements in a tree, its root included.
pub open spec fn elem_count(e: ElemV) -> nat
    decreases e,
{
    1 + nodes_count(e.children)
}

/// The number of elements in a sequence of nodes and their subtrees.
pub open spec fn nodes_count(ns: Seq<NodeV>) -> nat
    decreases ns,
{
    if ns.len() == 0 {
        0
    } else {
        nodes_count(ns.drop_last()) + node_count(ns.last())
    }
}

/// The number of elements in a node's subtree.
pub open spec fn node_count(n: NodeV) -> nat
    decreases n,
{
    match n {
        NodeV::Element(e) => elem_count(e),
        _ => 0,
    }
}

/// The number of elements held by a stack of open elements.
pub open spec fn stack_count(s: Seq<ElemV>) -> nat
    decreases s.len(),
{
    if s.len() == 0 {
        0
    } else {
        stack_count(s.drop_last()) + elem_count(s.last())
    }
}

/// The number of elements a document holds.
pub open spec fn root_count(r: Option<ElemV>) -> nat {
    match r {
        Some(e) => elem_count(e),
        None => 0,
    }
}

/// The number of elements a builder state holds.
pub open spec fn state_count(st: BuildState) -> nat {
    stack_count(st.stack) + root_count(st.root)
}

/// The number of open and self-closing tags from `i` up to the first `EndOfFile`.
pub open spec fn tags_from(ts: Seq<Tok>, i: int) -> nat
    decreases ts.len() - i,
{
    if i < 0 || i >= ts.len() || ts[i] is EndOfFile {
        0
    } else {
        (if ts[i] is OpenTag || ts[i] is SelfClosingTag {
            1nat
        } else {
            0nat
        }) + tags_from(ts, i + 1)
    }
}

proof fn lemma_with_child_count(s: Seq<ElemV>, n: NodeV)
    requires
        s.len() > 0,
    ensures
        stack_count(with_child(s, n)) == stack_count(s) + node_count(n),
{
    let w = with_child(s, n);
    assert(w.drop_last() =~= s.drop_last());
    let top = s.last();
    assert(top.children.push(n).drop_last() =~= top.children);
}

proof fn lemma_step_count(st: BuildState, t: Tok)
    requires
        step(st, t) is Ok,
    ensures
        state_count(step(st, t)->Ok_0) == state_count(st) + (if t is OpenTag || t is SelfClosingTag {
            1nat
        } else {
            0nat
        }),
{
    match t {
        Tok::OpenTag(n) => {
            assert(st.stack.push(leaf(n, st.pending)).drop_last() =~= st.stack);
        },
        Tok::CloseTag(n) => {
            if st.stack.len() == 1 {
                assert(st.stack.drop_last() =~= Seq::<ElemV>::empty());
            } else {
                lemma_with_child_count(st.stack.drop_last(), NodeV::Element(st.stack.last()));
            }
        },
        Tok::SelfClosingTag(n) => {
            if st.stack.len() > 0 {
                lemma_with_child_count(st.stack, NodeV::Element(leaf(n, st.pending)));
            }
        },
        Tok::Text(c) => {
            if st.stack.len() > 0 {
                lemma_with_child_count(st.stack, NodeV::Text(c));
            }
        },
        Tok::Comment(c) => {
            if st.stack.len() > 0 {
                lemma_with_child_count(st.stack, NodeV::Comment(c));
            }
        },
        _ => {},
    }
}

proof fn lemma_build_from_count(ts: Seq<Tok>, i: int, st: BuildState)
    requires
        0 <= i,
        build_from(ts, i, st) is Ok,
    ensures
        root_count(build_from(ts, i, st)->Ok_0) == state_count(st) + tags_from(ts, i),
    decreases ts.len() - i,
{
    if i >= ts.len() || ts[i] is EndOfFile {
    } else {
        lemma_step_count(st, ts[i]);
        lemma_build_from_count(ts, i + 1, step(st, ts[i])->Ok_0);
    }
}

/// A document built from tokens holds exactly one element for each open tag and each
/// self-closing tag before `EndOfFile`.
pub proof fn lemma_element_count(ts: Seq<Tok>)
    requires
        build(ts) is Ok,
    ensures
        root_count(build(ts)->Ok_0) == tags_from(ts, 0),
{
    lemma_build_from_count(ts, 0, initial_state());
}

/// A text that is not empty, has no white space at either end, and holds no `<`.
pub open spec fn text_ok(c: Seq<char>) -> bool {
    c.len() > 0 && trimmed(c) == c && !c.contains('<')
}

/// Every text token of `ts` holds a text that is not empty, has no white space at either
/// end, and holds no `<`.
pub open spec fn toks_text_ok(ts: Seq<Tok>) -> bool {
    forall|k: int| 0 <= k < ts.len() && #[trigger] ts[k] is Text ==> text_ok(ts[k]->Text_0)
}

/// No token of `ts` is a text token.
pub open spec fn no_text(ts: Seq<Tok>) -> bool {
    forall|k: int| 0 <= k < ts.len() ==> !(#[trigger] ts[k] is Text)
}

/// Every text node of the tree holds a text for which `p` holds.
pub open spec fn elem_texts(e: ElemV, p: spec_fn(Seq<char>) -> bool) -> bool
    decreases e,
{
    nodes_texts(e.children, p)
}

pub open spec fn nodes_texts(ns: Seq<NodeV>, p: spec_fn(Seq<char>) -> bool) -> bool
    decreases ns,
{
    if ns.len() == 0 {
        true
    } else {
        nodes_texts(ns.drop_last(), p) && node_texts(ns.last(), p)
    }
}

pub open spec fn node_texts(n: NodeV, p: spec_fn(Seq<char>) -> bool) -> bool
    decreases n,
{
    match n {
        NodeV::Element(e) => elem_texts(e, p),
        NodeV::Text(c) => p(c),
        NodeV::Comment(_) => true,
    }
}

pub open spec fn stack_texts(s: Seq<ElemV>, p: spec_fn(Seq<char>) -> bool) -> bool
    decreases s.len(),
{
    if s.len() == 0 {
        true
    } else {
        stack_texts(s.drop_last(), p) && elem_texts(s.last(), p)
    }
}

pub open spec fn state_texts(st: BuildState, p: spec_fn(Seq<char>) -> bool) -> bool {
    stack_texts(st.stack, p) && match st.root {
        Some(r) => elem_texts(r, p),
        None => true,
    }
}

/// A text that is a proper text (see `text_ok`) and the content of a text token of `ts`.
pub open spec fn text_of_tokens(ts: Seq<Tok>) -> spec_fn(Seq<char>) -> bool {
    |c: Seq<char>| text_ok(c) && ts.contains(Tok::Text(c))
}

proof fn lemma_trim_start_head(x: Seq<char>)
    ensures
        trim_start(x).len() == 0 || !white(trim_start(x)[0]),
    decreases x.len(),
{
    if x.len() > 0 && white(x[0]) {
        lemma_trim_start_head(x.drop_first());
    }
}

proof fn lemma_trim_end_prefix(y: Seq<char>)
    ensures
        trim_end(y).len() <= y.len(),
        trim_end(y) == y.subrange(0, trim_end(y).len() as int),
        trim_end(y).len() == 0 || !white(trim_end(y).last()),
    decreases y.len(),
{
    if y.len() > 0 && white(y.last()) {
        lemma_trim_end_prefix(y.drop_last());
        let z = trim_end(y.drop_last());
        assert(y.drop_last().subrange(0, z.len() as int) =~= y.subrange(0, z.len() as int));
    } else {
        assert(y.subrange(0, y.len() as int) =~= y);
    }
}

proof fn lemma_trim_start_suffix(x: Seq<char>)
    ensures
        trim_start(x).len() <= x.len(),
        trim_start(x) == x.subrange(x.len() - trim_start(x).len(), x.len() as int),
    decreases x.len(),
{
    if x.len() > 0 && white(x[0]) {
        lemma_trim_start_suffix(x.drop_first());
        let z = trim_start(x.drop_first());
        assert(x.drop_first().subrange(x.len() - 1 - z.len(), x.len() - 1) =~= x.subrange(
            x.len() - z.len(),
            x.len() as int,
        ));
    } else {
        assert(x.subrange(0, x.len() as int) =~= x);
    }
}

/// Trimming a text without `<` that does not trim to nothing gives a proper text.
proof fn lemma_trimmed_text(x: Seq<char>)
    requires
        trimmed(x).len() > 0,
        !x.contains('<'),
    ensures
        text_ok(trimmed(x)),
{
    let y = trim_start(x);
    let z = trim_end(y);
    lemma_trim_start_head(x);
    lemma_trim_start_suffix(x);
    lemma_trim_end_prefix(y);
    assert(z[0] == y[0]);
    assert(trim_start(z) == z);
    assert(trim_end(z) == z);
    if z.contains('<') {
        let k = choose|k: int| 0 <= k < z.len() && z[k] == '<';
        assert(x[x.len() - y.len() + k] == '<');
    }
}

proof fn lemma_find_char_skips(s: Seq<char>, i: int, c: char)
    requires
        0 <= i <= s.len(),
    ensures
        i <= find_char(s, i, c) <= s.len(),
        forall|k: int| i <= k < find_char(s, i, c) ==> s[k] != c,
    decreases s.len() - i,
{
    if i < s.len() && s[i] != c {
        lemma_find_char_skips(s, i + 1, c);
    }
}

proof fn lemma_attributes_no_text(s: Seq<char>, k: int, name: Seq<char>, acc: Seq<Tok>)
    requires
        no_text(acc),
        lex_attributes(s, k, name, acc) is Ok,
    ensures
        no_text(lex_attributes(s, k, name, acc)->Ok_0.0),
    decreases s.len() - k,
{
    if k < 0 || k >= s.len() {
    } else if s[k] == '>' {
        assert(no_text(acc.push(Tok::OpenTag(name))));
    } else if s[k] == '/' {
        assert(no_text(acc.push(Tok::SelfClosingTag(name))));
    } else if is_space(s[k]) {
        lemma_attributes_no_text(s, k + 1, name, acc);
    } else {
        let (t, j) = lex_attribute(s, k)->Ok_0;
        assert(no_text(acc.push(t)));
        lemma_attributes_no_text(s, j, name, acc.push(t));
    }
}

proof fn lemma_comment_no_text(s: Seq<char>, p: int, content: Seq<char>, last: char)
    requires
        lex_comment_body(s, p, content, last) is Ok,
    ensures
        no_text(lex_comment_body(s, p, content, last)->Ok_0.0),
    decreases s.len() - p,
{
    let read = content.push(s[p]);
    if last == '-' && s[p] == '-' && p + 1 < s.len() && s[p + 1] == '>' {
        assert(no_text(seq![Tok::Comment(trimmed(read.drop_last().drop_last()))]));
    } else {
        lemma_comment_no_text(s, p + 1, read, s[p]);
    }
}

proof fn lemma_declaration_no_text(s: Seq<char>, p: int)
    requires
        lex_declaration(s, p) is Ok,
    ensures
        no_text(lex_declaration(s, p)->Ok_0.0),
    decreases s.len() - p,
{
    if s[p] == '?' && p + 1 < s.len() && s[p + 1] == '>' {
        assert(no_text(seq![Tok::XmlDeclaration]));
    } else {
        lemma_declaration_no_text(s, p + 1);
    }
}

proof fn lemma_tag_no_text(s: Seq<char>, i: int)
    requires
        lex_tag(s, i) is Ok,
    ensures
        no_text(lex_tag(s, i)->Ok_0.0),
{
    if s[i + 1] == '/' {
        let j = find_char(s, i + 2, '>');
        assert(no_text(seq![Tok::CloseTag(s.subrange(i + 2, j))]));
    } else if s[i + 1] == '!' {
        lemma_comment_no_text(s, i + 4, seq![], ' ');
    } else if s[i + 1] == '?' {
        lemma_declaration_no_text(s, i + 2);
    } else {
        let j = name_end(s, i + 1);
        let name = s.subrange(i + 1, j);
        if is_space(s[j]) {
            lemma_attributes_no_text(s, j + 1, name, seq![]);
        } else if s[j] == '>' {
            assert(no_text(seq![Tok::OpenTag(name)]));
        } else {
            assert(no_text(seq![Tok::SelfClosingTag(name)]));
        }
    }
}

proof fn lemma_lex_from_text_ok(s: Seq<char>, i: int, acc: Seq<Tok>)
    requires
        toks_text_ok(acc),
        lex_from(s, i, acc) is Ok,
    ensures
        toks_text_ok(lex_from(s, i, acc)->Ok_0),
    decreases s.len() - i,
{
    if i < 0 || i >= s.len() {
        assert(toks_text_ok(acc.push(Tok::EndOfFile)));
    } else if s[i] == '<' {
        let (ts, j) = lex_tag(s, i)->Ok_0;
        lemma_tag_no_text(s, i);
        assert(toks_text_ok(acc + ts)) by {
            assert forall|k: int|
                0 <= k < (acc + ts).len() && #[trigger] (acc + ts)[k] is Text implies text_ok(
                (acc + ts)[k]->Text_0,
            ) by {
                if k >= acc.len() {
                    assert((acc + ts)[k] == ts[k - acc.len()]);
                }
            }
        }
        lemma_lex_from_text_ok(s, j, acc + ts);
    } else if is_space(s[i]) {
        lemma_lex_from_text_ok(s, i + 1, acc);
    } else {
        let j = find_char(s, i, '<');
        let t = trimmed(s.subrange(i, j));
        lemma_find_char_skips(s, i, '<');
        if t.len() > 0 {
            if s.subrange(i, j).contains('<') {
                let k = choose|k: int| 0 <= k < j - i && s.subrange(i, j)[k] == '<';
                assert(s[i + k] == '<');
            }
            lemma_trimmed_text(s.subrange(i, j));
            assert(toks_text_ok(acc.push(Tok::Text(t))));
            lemma_lex_from_text_ok(s, j, acc.push(Tok::Text(t)));
        } else {
            lemma_lex_from_text_ok(s, j, acc);
        }
    }
}

proof fn lemma_with_child_texts(s: Seq<ElemV>, n: NodeV, p: spec_fn(Seq<char>) -> bool)
    requires
        s.len() > 0,
        stack_texts(s, p),
        node_texts(n, p),
    ensures
        stack_texts(with_child(s, n), p),
{
    let w = with_child(s, n);
    assert(w.drop_last() =~= s.drop_last());
    let top = s.last();
    assert(top.children.push(n).drop_last() =~= top.children);
}

proof fn lemma_step_texts(st: BuildState, t: Tok, p: spec_fn(Seq<char>) -> bool)
    requires
        step(st, t) is Ok,
        state_texts(st, p),
        t is Text ==> p(t->Text_0),
    ensures
        state_texts(step(st, t)->Ok_0, p),
{
    match t {
        Tok::OpenTag(n) => {
            assert(st.stack.push(leaf(n, st.pending)).drop_last() =~= st.stack);
        },
        Tok::CloseTag(n) => {
            if st.stack.len() == 1 {
                assert(st.stack.drop_last() =~= Seq::<ElemV>::empty());
            } else {
                lemma_with_child_texts(st.stack.drop_last(), NodeV::Element(st.stack.last()), p);
            }
        },
        Tok::SelfClosingTag(n) => {
            if st.stack.len() > 0 {
                lemma_with_child_texts(st.stack, NodeV::Element(leaf(n, st.pending)), p);
            }
        },
        Tok::Text(c) => {
            if st.stack.len() > 0 {
                lemma_with_child_texts(st.stack, NodeV::Text(c), p);
            }
        },
        Tok::Comment(c) => {
            if st.stack.len() > 0 {
                lemma_with_child_texts(st.stack, NodeV::Comment(c), p);
            }
        },
        _ => {},
    }
}

proof fn lemma_build_from_texts(ts: Seq<Tok>, i: int, st: BuildState, p: spec_fn(Seq<char>) -> bool)
    requires
        0 <= i,
        forall|k: int| 0 <= k < ts.len() && #[trigger] ts[k] is Text ==> p(ts[k]->Text_0),
        state_texts(st, p),
        build_from(ts, i, st) is Ok,
    ensures
        match build_from(ts, i, st)->Ok_0 {
            Some(r) => elem_texts(r, p),
            None => true,
        },
    decreases ts.len() - i,
{
    if i >= ts.len() || ts[i] is EndOfFile {
    } else {
        lemma_step_texts(st, ts[i], p);
        lemma_build_from_texts(ts, i + 1, step(st, ts[i])->Ok_0, p);
    }
}

/// The lexer emits no text token whose trimmed content is empty, so no such text
/// reaches the tree: every text token is not empty, has no white space at either end and
/// holds no `<`, and every text node of a document built from the tokens holds, unchanged,
/// the content of one of those text tokens.
pub proof fn lemma_blank_text_dropped(s: Seq<char>)
    requires
        lex(s) is Ok,
    ensures
        toks_text_ok(lex(s)->Ok_0),
        build(lex(s)->Ok_0) is Ok ==> match build(lex(s)->Ok_0)->Ok_0 {
            Some(r) => elem_texts(r, text_of_tokens(lex(s)->Ok_0)),
            None => true,
        },
{
    lemma_lex_from_text_ok(s, 0, seq![]);
    let ts = lex(s)->Ok_0;
    let p = text_of_tokens(ts);
    if build(ts) is Ok {
        assert forall|k: int| 0 <= k < ts.len() && #[trigger] ts[k] is Text implies p(
            ts[k]->Text_0,
        ) by {
            assert(ts[k] == Tok::Text(ts[k]->Text_0));
            assert(ts.contains(Tok::Text(ts[k]->Text_0)));
        }
        lemma_build_from_texts(ts, 0, initial_state(), p);
    }
}

/// `st` with the elements `outer` below its open elements, and the root `root`.
pub open spec fn framed(outer: Seq<ElemV>, st: BuildState, root: Option<ElemV>) -> BuildState {
    BuildState { stack: outer + st.stack, pending: st.pending, root }
}

proof fn lemma_with_child_framed(outer: Seq<ElemV>, inner: Seq<ElemV>, n: NodeV)
    requires
        inner.len() > 0,
    ensures
        with_child(outer + inner, n) == outer + with_child(inner, n),
{
    assert(with_child(outer + inner, n) =~= outer + with_child(inner, n));
}

proof fn lemma_step_framed(outer: Seq<ElemV>, st: BuildState, t: Tok, root: Option<ElemV>)
    requires
        st.stack.len() > 0,
        st.root is None,
        step(st, t) is Ok,
        step(st, t)->Ok_0.root is None,
    ensures
        step(st, t)->Ok_0.stack.len() > 0,
        step(framed(outer, st, root), t) == Ok::<BuildState, ParseError>(
            framed(outer, step(st, t)->Ok_0, root),
        ),
{
    let f = framed(outer, st, root);
    assert(f.stack.last() == st.stack.last());
    match t {
        Tok::OpenTag(n) => {
            assert(f.stack.push(leaf(n, st.pending)) =~= outer + st.stack.push(leaf(n, st.pending)));
        },
        Tok::CloseTag(n) => {
            assert(f.stack.drop_last() =~= outer + st.stack.drop_last());
            lemma_with_child_framed(outer, st.stack.drop_last(), NodeV::Element(st.stack.last()));
        },
        Tok::SelfClosingTag(n) => {
            lemma_with_child_framed(outer, st.stack, NodeV::Element(leaf(n, st.pending)));
        },
        Tok::Text(c) => {
            lemma_with_child_framed(outer, st.stack, NodeV::Text(c));
        },
        Tok::Comment(c) => {
            lemma_with_child_framed(outer, st.stack, NodeV::Comment(c));
        },
        _ => {},
    }
}

proof fn lemma_run_framed(outer: Seq<ElemV>, st: BuildState, mid: Seq<Tok>, root: Option<ElemV>)
    requires
        st.stack.len() > 0,
        st.root is None,
        run_tokens(st, mid) is Ok,
        run_tokens(st, mid)->Ok_0.root is None,
    ensures
        run_tokens(st, mid)->Ok_0.stack.len() > 0,
        run_tokens(framed(outer, st, root), mid) == Ok::<BuildState, ParseError>(
            framed(outer, run_tokens(st, mid)->Ok_0, root),
        ),
    decreases mid.len(),
{
    if mid.len() > 0 {
        let before = run_tokens(st, mid.drop_last());
        if before->Ok_0.root is Some {
            lemma_root_kept(before->Ok_0, mid.last());
        }
        lemma_run_framed(outer, st, mid.drop_last(), root);
        lemma_step_framed(outer, before->Ok_0, mid.last(), root);
    }
}

proof fn lemma_root_kept(st: BuildState, t: Tok)
    requires
        st.root is Some,
        step(st, t) is Ok,
    ensures
        step(st, t)->Ok_0.root is Some,
{
}

/// The children of an element come from the tokens between its open tag and its close
/// tag alone: reading tokens that never close the element they start in (so that, read
/// on that element alone, no root appears) does to that element what it does with any
/// open elements around it, which stay as they were.
pub proof fn lemma_children_between(
    outer: Seq<ElemV>,
    e: ElemV,
    pending: AttrsV,
    root: Option<ElemV>,
    mid: Seq<Tok>,
)
    requires
        run_tokens(BuildState { stack: seq![e], pending, root: None }, mid) is Ok,
        run_tokens(BuildState { stack: seq![e], pending, root: None }, mid)->Ok_0.root is None,
    ensures
        run_tokens(BuildState { stack: outer.push(e), pending, root }, mid) == Ok::<
            BuildState,
            ParseError,
        >(
            BuildState {
                stack: outer + run_tokens(
                    BuildState { stack: seq![e], pending, root: None },
                    mid,
                )->Ok_0.stack,
                pending: run_tokens(BuildState { stack: seq![e], pending, root: None }, mid)->Ok_0.pending,
                root,
            },
        ),
{
    let solo = BuildState { stack: seq![e], pending, root: None };
    assert(framed(outer, solo, root) == BuildState { stack: outer.push(e), pending, root }) by {
        assert(outer + seq![e] =~= outer.push(e));
    }
    lemma_run_framed(outer, solo, mid, root);
}

proof fn lemma_run_concat(st: BuildState, a: Seq<Tok>, b: Seq<Tok>)
    ensures
        run_tokens(st, a + b) == match run_tokens(st, a) {
            Ok(mid) => run_tokens(mid, b),
            Err(e) => Err(e),
        },
    decreases b.len(),
{
    if b.len() == 0 {
        assert(a + b =~= a);
    } else {
        assert((a + b).drop_last() =~= a + b.drop_last());
        lemma_run_concat(st, a, b.drop_last());
    }
}

proof fn lemma_bottom_name_kept(st: BuildState, mid: Seq<Tok>)
    requires
        st.stack.len() > 0,
        st.root is None,
        run_tokens(st, mid) is Ok,
        run_tokens(st, mid)->Ok_0.root is None,
    ensures
        run_tokens(st, mid)->Ok_0.stack.len() > 0,
        run_tokens(st, mid)->Ok_0.stack[0].name == st.stack[0].name,
    decreases mid.len(),
{
    if mid.len() > 0 {
        let before = run_tokens(st, mid.drop_last())->Ok_0;
        if before.root is Some {
            lemma_root_kept(before, mid.last());
        }
        lemma_bottom_name_kept(st, mid.drop_last());
        lemma_step_framed(Seq::empty(), before, mid.last(), None);
        assert(Seq::<ElemV>::empty() + before.stack =~= before.stack);
        let after = step(before, mid.last())->Ok_0;
        assert(Seq::<ElemV>::empty() + after.stack =~= after.stack);
    }
}

/// What the tokens `mid` do when read on the lone open element `e`, with no attributes
/// waiting.
pub open spec fn run_alone(e: ElemV, mid: Seq<Tok>) -> Result<BuildState, ParseError> {
    run_tokens(BuildState { stack: seq![e], pending: Seq::empty(), root: None }, mid)
}

/// An element is built from the tokens between its open tag and its close tag: reading
/// `<n>`, then tokens `mid` that never close the element they start in, then `</n>`,
/// adds to the innermost open element one child, the element that `mid` builds when read
/// on an element named `n`, with the waiting attributes, alone.
pub proof fn lemma_element_from_enclosed_tokens(st: BuildState, n: Seq<char>, mid: Seq<Tok>)
    requires
        st.stack.len() > 0,
        run_alone(leaf(n, st.pending), mid) is Ok,
        run_alone(leaf(n, st.pending), mid)->Ok_0.root is None,
        run_alone(leaf(n, st.pending), mid)->Ok_0.stack.len() == 1,
    ensures
        run_tokens(st, seq![Tok::OpenTag(n)] + mid + seq![Tok::CloseTag(n)]) == Ok::<
            BuildState,
            ParseError,
        >(
            BuildState {
                stack: with_child(
                    st.stack,
                    NodeV::Element(run_alone(leaf(n, st.pending), mid)->Ok_0.stack[0]),
                ),
                pending: run_alone(leaf(n, st.pending), mid)->Ok_0.pending,
                root: st.root,
            },
        ),
{
    let e = leaf(n, st.pending);
    let solo_start = BuildState { stack: seq![e], pending: Seq::empty(), root: None };
    let solo = run_tokens(solo_start, mid)->Ok_0;
    let open = seq![Tok::OpenTag(n)];
    let close = seq![Tok::CloseTag(n)];
    lemma_run_concat(st, open + mid, close);
    lemma_run_concat(st, open, mid);
    assert(open.drop_last() =~= Seq::<Tok>::empty());
    assert(close.drop_last() =~= Seq::<Tok>::empty());
    let opened = step(st, Tok::OpenTag(n))->Ok_0;
    assert(run_tokens(st, open.drop_last()) == Ok::<BuildState, ParseError>(st));
    assert(open.last() == Tok::OpenTag(n));
    assert(run_tokens(st, open) == Ok::<BuildState, ParseError>(opened));
    lemma_children_between(st.stack, e, Seq::empty(), st.root, mid);
    lemma_bottom_name_kept(solo_start, mid);
    let framed_end = BuildState {
        stack: st.stack + solo.stack,
        pending: solo.pending,
        root: st.root,
    };
    assert(framed_end.stack.last() == solo.stack[0]);
    assert(framed_end.stack.drop_last() =~= st.stack);
    assert(opened == BuildState {
        stack: st.stack.push(e),
        pending: Seq::<(Seq<char>, Seq<char>)>::empty(),
        root: st.root,
    });
    assert(run_tokens(st, open + mid) == Ok::<BuildState, ParseError>(framed_end));
    assert(run_tokens(framed_end, close.drop_last()) == Ok::<BuildState, ParseError>(framed_end));
    assert(close.last() == Tok::CloseTag(n));
}

/// Setting an attribute keeps the names distinct.
pub proof fn lemma_insert_keeps_keys_unique(a: AttrsV, k: Seq<char>, v: Seq<char>)
    requires
        keys_unique(a),
    ensures
        keys_unique(attr_insert(a, k, v)),
{
    lemma_pos_found(a, k, 0);
    let b = attr_insert(a, k, v);
    assert forall|i: int, j: int| 0 <= i < j < b.len() implies #[trigger] b[i].0 != #[trigger] b[j].0 by {
        if j == a.len() {
            assert(a[i].0 != k);
        }
    }
}

pub open spec fn stack_keys_unique(s: Seq<ElemV>) -> bool
    decreases s.len(),
{
    if s.len() == 0 {
        true
    } else {
        stack_keys_unique(s.drop_last()) && elem_keys_unique(s.last())
    }
}

pub open spec fn state_keys_unique(st: BuildState) -> bool {
    stack_keys_unique(st.stack) && doc_keys_unique(st.root) && keys_unique(st.pending)
}

proof fn lemma_with_child_keys(s: Seq<ElemV>, n: NodeV)
    requires
        s.len() > 0,
        stack_keys_unique(s),
        node_keys_unique(n),
    ensures
        stack_keys_unique(with_child(s, n)),
{
    let w = with_child(s, n);
    assert(w.drop_last() =~= s.drop_last());
    let top = s.last();
    assert(top.children.push(n).drop_last() =~= top.children);
}

proof fn lemma_step_keys(st: BuildState, t: Tok)
    requires
        step(st, t) is Ok,
        state_keys_unique(st),
    ensures
        state_keys_unique(step(st, t)->Ok_0),
{
    let none = Seq::<(Seq<char>, Seq<char>)>::empty();
    assert(keys_unique(none));
    match t {
        Tok::OpenTag(n) => {
            assert(st.stack.push(leaf(n, st.pending)).drop_last() =~= st.stack);
            assert(nodes_keys_unique(Seq::<NodeV>::empty()));
        },
        Tok::CloseTag(n) => {
            if st.stack.len() == 1 {
                assert(st.stack.drop_last() =~= Seq::<ElemV>::empty());
            } else {
                lemma_with_child_keys(st.stack.drop_last(), NodeV::Element(st.stack.last()));
            }
        },
        Tok::SelfClosingTag(n) => {
            assert(nodes_keys_unique(Seq::<NodeV>::empty()));
            if st.stack.len() > 0 {
                lemma_with_child_keys(st.stack, NodeV::Element(leaf(n, st.pending)));
            }
        },
        Tok::Attribute(k, v) => {
            lemma_insert_keeps_keys_unique(st.pending, k, v);
        },
        Tok::Text(c) => {
            if st.stack.len() > 0 {
                lemma_with_child_keys(st.stack, NodeV::Text(c));
            }
        },
        Tok::Comment(c) => {
            if st.stack.len() > 0 {
                lemma_with_child_keys(st.stack, NodeV::Comment(c));
            }
        },
        _ => {},
    }
}

proof fn lemma_build_from_keys(ts: Seq<Tok>, i: int, st: BuildState)
    requires
        0 <= i,
        state_keys_unique(st),
        build_from(ts, i, st) is Ok,
    ensures
        doc_keys_unique(build_from(ts, i, st)->Ok_0),
    decreases ts.len() - i,
{
    if i >= ts.len() || ts[i] is EndOfFile {
    } else {
        lemma_step_keys(st, ts[i]);
        lemma_build_from_keys(ts, i + 1, step(st, ts[i])->Ok_0);
    }
}

/// In every document built from tokens, no element has two attributes of one name.
pub proof fn lemma_built_keys_unique(ts: Seq<Tok>)
    requires
        build(ts) is Ok,
    ensures
        doc_keys_unique(build(ts)->Ok_0),
{
    assert(keys_unique(Seq::<(Seq<char>, Seq<char>)>::empty()));
    lemma_build_from_keys(ts, 0, initial_state());
}

/// The attributes waiting after the tokens `ts`: those of the attribute tokens since the
/// last open or self-closing tag, set in order, a later value for a name replacing an
/// earlier one.
pub open spec fn waiting_attributes(ts: Seq<Tok>) -> AttrsV
    decreases ts.len(),
{
    if ts.len() == 0 {
        Seq::empty()
    } else {
        match ts.last() {
            Tok::Attribute(k, v) => attr_insert(waiting_attributes(ts.drop_last()), k, v),
            Tok::OpenTag(_) => Seq::empty(),
            Tok::SelfClosingTag(_) => Seq::empty(),
            _ => waiting_attributes(ts.drop_last()),
        }
    }
}

proof fn lemma_run_pending(ts: Seq<Tok>)
    requires
        prefix_state(ts) is Ok,
    ensures
        prefix_state(ts)->Ok_0.pending == waiting_attributes(ts),
    decreases ts.len(),
{
    if ts.len() > 0 {
        lemma_run_pending(ts.drop_last());
    }
}

/// Over a whole parse, the element that an open or self-closing tag makes carries exactly
/// the attributes of the attribute tokens between the previous such tag and it, set in
/// order (the builder hands the waiting attributes to the tag), and none stay waiting
/// after it; the attributes before the previous tag went to that tag.
pub proof fn lemma_tag_gets_attributes_since_previous_tag(ts: Seq<Tok>, i: int)
    requires
        0 <= i < ts.len(),
        prefix_state(ts.subrange(0, i + 1)) is Ok,
        ts[i] is OpenTag || ts[i] is SelfClosingTag,
    ensures
        ts[i] is OpenTag ==> prefix_state(ts.subrange(0, i + 1))->Ok_0.stack.last() == leaf(
            ts[i]->OpenTag_0,
            waiting_attributes(ts.subrange(0, i)),
        ),
        prefix_state(ts.subrange(0, i))->Ok_0.pending == waiting_attributes(ts.subrange(0, i)),
        prefix_state(ts.subrange(0, i + 1))->Ok_0.pending.len() == 0,
{
    let before = ts.subrange(0, i);
    let upto = ts.subrange(0, i + 1);
    assert(upto.drop_last() =~= before);
    lemma_run_pending(before);
}

/// The nesting read so far: the names of the open tags, innermost last, and whether a
/// top-level element is complete.
pub struct Nesting {
    pub open: Seq<Seq<char>>,
    pub done: bool,
}

/// One token's effect on the nesting, or `None` where it breaks it: a close tag must name
/// the innermost open tag, and only one top-level element may be completed.
pub open spec fn nest_step(n: Nesting, t: Tok) -> Option<Nesting> {
    match t {
        Tok::OpenTag(x) => Some(Nesting { open: n.open.push(x), done: n.done }),
        Tok::CloseTag(x) => if n.open.len() == 0 || n.open.last() != x {
            None
        } else if n.open.len() == 1 {
            if n.done {
                None
            } else {
                Some(Nesting { open: Seq::empty(), done: true })
            }
        } else {
            Some(Nesting { open: n.open.drop_last(), done: n.done })
        },
        Tok::SelfClosingTag(_) => if n.open.len() == 0 {
            if n.done {
                None
            } else {
                Some(Nesting { open: n.open, done: true })
            }
        } else {
            Some(n)
        },
        _ => Some(n),
    }
}

/// Whether the tokens from `i` on, up to `EndOfFile`, keep the nesting and close every
/// open tag.
pub open spec fn nested_from(ts: Seq<Tok>, i: int, n: Nesting) -> bool
    decreases ts.len() - i,
{
    if i < 0 || i >= ts.len() || ts[i] is EndOfFile {
        n.open.len() == 0
    } else {
        match nest_step(n, ts[i]) {
            None => false,
            Some(m) => nested_from(ts, i + 1, m),
        }
    }
}

/// A well-formed token sequence: every close tag names the innermost open tag, at most
/// one top-level element, and no tag left open at `EndOfFile`.
pub open spec fn well_formed(ts: Seq<Tok>) -> bool {
    nested_from(ts, 0, Nesting { open: Seq::empty(), done: false })
}

pub open spec fn stack_names(s: Seq<ElemV>) -> Seq<Seq<char>> {
    s.map_values(|e: ElemV| e.name)
}

pub open spec fn tracks(st: BuildState, n: Nesting) -> bool {
    stack_names(st.stack) == n.open && (st.root is Some) == n.done
}

proof fn lemma_step_tracks(st: BuildState, n: Nesting, t: Tok)
    requires
        tracks(st, n),
    ensures
        (step(st, t) is Ok) == (nest_step(n, t) is Some),
        step(st, t) is Ok ==> tracks(step(st, t)->Ok_0, nest_step(n, t)->Some_0),
{
    let names = stack_names(st.stack);
    if st.stack.len() > 0 {
        assert(names.last() == st.stack.last().name);
    }
    match t {
        Tok::OpenTag(x) => {
            assert(stack_names(st.stack.push(leaf(x, st.pending))) =~= names.push(x));
        },
        Tok::CloseTag(x) => {
            if st.stack.len() > 0 && st.stack.last().name == x {
                if st.stack.len() == 1 {
                    assert(stack_names(Seq::<ElemV>::empty()) =~= Seq::<Seq<char>>::empty());
                } else {
                    let rest = st.stack.drop_last();
                    let w = with_child(rest, NodeV::Element(st.stack.last()));
                    assert(stack_names(w) =~= names.drop_last());
                }
            }
        },
        Tok::SelfClosingTag(x) => {
            if st.stack.len() > 0 {
                let w = with_child(st.stack, NodeV::Element(leaf(x, st.pending)));
                assert(stack_names(w) =~= names);
            }
        },
        Tok::Text(c) => {
            if st.stack.len() > 0 {
                assert(stack_names(with_child(st.stack, NodeV::Text(c))) =~= names);
            }
        },
        Tok::Comment(c) => {
            if st.stack.len() > 0 {
                assert(stack_names(with_child(st.stack, NodeV::Comment(c))) =~= names);
            }
        },
        _ => {},
    }
}

proof fn lemma_build_from_tracks(ts: Seq<Tok>, i: int, st: BuildState, n: Nesting)
    requires
        0 <= i,
        tracks(st, n),
    ensures
        (build_from(ts, i, st) is Ok) == nested_from(ts, i, n),
    decreases ts.len() - i,
{
    if i >= ts.len() || ts[i] is EndOfFile {
        assert(stack_names(st.stack).len() == st.stack.len());
    } else {
        lemma_step_tracks(st, n, ts[i]);
        if step(st, ts[i]) is Ok {
            lemma_build_from_tracks(ts, i + 1, step(st, ts[i])->Ok_0, nest_step(n, ts[i])->Some_0);
        }
    }
}

/// Parsing succeeds exactly on well-formed token sequences; a well-formed sequence with
/// at least one open or self-closing tag gives a root, and the tree holds one element
/// per such tag.
pub proof fn lemma_well_formed_parses(ts: Seq<Tok>)
    ensures
        (build(ts) is Ok) == well_formed(ts),
        well_formed(ts) ==> root_count(build(ts)->Ok_0) == tags_from(ts, 0),
        well_formed(ts) && tags_from(ts, 0) > 0 ==> build(ts)->Ok_0 is Some,
{
    let n0 = Nesting { open: Seq::empty(), done: false };
    assert(stack_names(initial_state().stack) =~= n0.open);
    lemma_build_from_tracks(ts, 0, initial_state(), n0);
    if build(ts) is Ok {
        lemma_element_count(ts);
    }
}

} // verus!
