//! The lossless syntax tree, and how it is built from the parser's events.
//!
//! Every byte of the source — whitespace, comments and line continuations
//! included — is the text of exactly one token of the tree, in order, so the
//! text of the tree is the source.

use vstd::prelude::*;
use vstd::utf8::*;

use crate::grammar::Event;
use crate::kind::SyntaxKind;
use crate::lossless::seg;
use crate::utf8_text::{bytes_of, lemma_str_bytes, substr};

verus! {

/// A leaf of the tree: a kind and the exact source text it covers.
#[derive(Debug, PartialEq, Eq, Hash)]
pub struct SyntaxToken {
    pub kind: SyntaxKind,
    pub text: String,
}

/// An interior node: a kind and its children, in source order.
#[derive(Debug, PartialEq, Eq, Hash)]
pub struct SyntaxNode {
    pub kind: SyntaxKind,
    pub children: Vec<SyntaxElement>,
}

/// A child of a node: a nested node or a token.
#[derive(Debug, PartialEq, Eq, Hash)]
pub enum SyntaxElement {
    Node(SyntaxNode),
    Token(SyntaxToken),
}

/// A tree in preorder: a node is `Open(kind)`, its children, then `Close`;
/// a token is `Leaf(kind, text)`.
pub enum TreeEvent {
    Open(SyntaxKind),
    Leaf(SyntaxKind, Seq<char>),
    Close,
}

/// The text of a node: the texts of its tokens, in order.
pub open spec fn node_text(n: SyntaxNode) -> Seq<char>
    decreases n,
{
    elems_text(n.children@)
}

/// The text of a sequence of elements.
pub open spec fn elems_text(s: Seq<SyntaxElement>) -> Seq<char>
    decreases s,
{
    if s.len() == 0 {
        Seq::empty()
    } else {
        let first = match s[0] {
            SyntaxElement::Node(n) => node_text(n),
            SyntaxElement::Token(t) => t.text@,
        };
        first + elems_text(s.drop_first())
    }
}

/// A node in preorder.
pub open spec fn node_events(n: SyntaxNode) -> Seq<TreeEvent>
    decreases n,
{
    seq![TreeEvent::Open(n.kind)] + elems_events(n.children@) + seq![TreeEvent::Close]
}

/// A sequence of elements in preorder.
pub open spec fn elems_events(s: Seq<SyntaxElement>) -> Seq<TreeEvent>
    decreases s,
{
    if s.len() == 0 {
        Seq::empty()
    } else {
        let first = match s[0] {
            SyntaxElement::Node(n) => node_events(n),
            SyntaxElement::Token(t) => seq![TreeEvent::Leaf(t.kind, t.text@)],
        };
        first + elems_events(s.drop_first())
    }
}

/// One element in preorder.
pub open spec fn elem_events(e: SyntaxElement) -> Seq<TreeEvent> {
    match e {
        SyntaxElement::Node(n) => node_events(n),
        SyntaxElement::Token(t) => seq![TreeEvent::Leaf(t.kind, t.text@)],
    }
}

/// The texts of the leaves, in order.
pub open spec fn leaves_text(tes: Seq<TreeEvent>) -> Seq<char>
    decreases tes.len(),
{
    if tes.len() == 0 {
        Seq::empty()
    } else {
        let first = match tes[0] {
            TreeEvent::Leaf(_, t) => t,
            _ => Seq::empty(),
        };
        first + leaves_text(tes.drop_first())
    }
}

/// A parser event with its token's source text in place of its range.
pub open spec fn realize(b: Seq<u8>, e: Event) -> TreeEvent {
    match e {
        Event::Start(k) => TreeEvent::Open(k),
        Event::Token(t) => TreeEvent::Leaf(
            t.kind,
            decode_utf8(b.subrange(t.range.start as int, t.range.end as int)),
        ),
        Event::Finish => TreeEvent::Close,
    }
}

/// All the events, realized.
pub open spec fn realize_all(b: Seq<u8>, es: Seq<Event>) -> Seq<TreeEvent> {
    es.map_values(|e: Event| realize(b, e))
}

pub proof fn lemma_elems_events_push(s: Seq<SyntaxElement>, e: SyntaxElement)
    ensures
        elems_events(s.push(e)) == elems_events(s) + elem_events(e),
    decreases s.len(),
{
    reveal_with_fuel(elems_events, 2);
    if s.len() == 0 {
        assert(s.push(e).drop_first() =~= Seq::<SyntaxElement>::empty());
        assert(elems_events(s.push(e)) =~= elem_events(e));
        assert(elems_events(s) + elem_events(e) =~= elem_events(e));
    } else {
        assert(s.push(e).drop_first() =~= s.drop_first().push(e));
        lemma_elems_events_push(s.drop_first(), e);
        assert(elems_events(s.push(e)) =~= elems_events(s) + elem_events(e));
    }
}

pub proof fn lemma_leaves_text_concat(x: Seq<TreeEvent>, y: Seq<TreeEvent>)
    ensures
        leaves_text(x + y) == leaves_text(x) + leaves_text(y),
    decreases x.len(),
{
    if x.len() == 0 {
        assert(x + y =~= y);
        assert(leaves_text(x) + leaves_text(y) =~= leaves_text(y));
    } else {
        assert((x + y).drop_first() =~= x.drop_first() + y);
        assert((x + y)[0] == x[0]);
        lemma_leaves_text_concat(x.drop_first(), y);
        assert(leaves_text(x + y) =~= leaves_text(x) + leaves_text(y));
    }
}

/// The text of a node is the text of its leaves in preorder.
pub proof fn lemma_node_text(n: SyntaxNode)
    ensures
        node_text(n) == leaves_text(node_events(n)),
    decreases n,
{
    lemma_elems_text(n.children@);
    let inner = elems_events(n.children@);
    lemma_leaves_text_concat(seq![TreeEvent::Open(n.kind)], inner);
    lemma_leaves_text_concat(seq![TreeEvent::Open(n.kind)] + inner, seq![TreeEvent::Close]);
    reveal_with_fuel(leaves_text, 2);
    assert(leaves_text(seq![TreeEvent::Open(n.kind)]) =~= Seq::<char>::empty());
    assert(leaves_text(seq![TreeEvent::Close]) =~= Seq::<char>::empty());
    assert(leaves_text(node_events(n)) =~= leaves_text(inner));
}

pub proof fn lemma_elems_text(s: Seq<SyntaxElement>)
    ensures
        elems_text(s) == leaves_text(elems_events(s)),
    decreases s,
{
    if s.len() > 0 {
        let first = match s[0] {
            SyntaxElement::Node(n) => node_events(n),
            SyntaxElement::Token(t) => seq![TreeEvent::Leaf(t.kind, t.text@)],
        };
        match s[0] {
            SyntaxElement::Node(n) => {
                lemma_node_text(n);
            },
            SyntaxElement::Token(t) => {
                reveal_with_fuel(leaves_text, 2);
                assert(leaves_text(first) =~= t.text@);
            },
        }
        lemma_elems_text(s.drop_first());
        lemma_leaves_text_concat(first, elems_events(s.drop_first()));
    }
}

/// Covered events have as text the source bytes they cover, decoded.
pub proof fn lemma_seg_text(b: Seq<u8>, es: Seq<Event>, d: int, a: int)
    requires
        valid_utf8(b),
        0 <= a <= b.len(),
        is_char_boundary(b, a),
        seg(b, es, d, a) is Some,
    ensures
        ({
            let m = seg(b, es, d, a).unwrap().1;
            &&& a <= m <= b.len()
            &&& is_char_boundary(b, m)
            &&& leaves_text(realize_all(b, es)) == decode_utf8(b.subrange(a, m))
        }),
    decreases es.len(),
{
    let r = realize_all(b, es);
    if es.len() == 0 {
        assert(b.subrange(a, a) =~= Seq::<u8>::empty());
        assert(decode_utf8(Seq::<u8>::empty()) =~= Seq::<char>::empty());
    } else {
        assert(r.drop_first() =~= realize_all(b, es.drop_first()));
        match es[0] {
            Event::Start(_) => {
                lemma_seg_text(b, es.drop_first(), d + 1, a);
            },
            Event::Finish => {
                lemma_seg_text(b, es.drop_first(), d - 1, a);
            },
            Event::Token(t) => {
                let e = t.range.end as int;
                lemma_seg_text(b, es.drop_first(), d, e);
                let m = seg(b, es, d, a).unwrap().1;
                // decode(b[a..m]) = decode(b[a..e]) + decode(b[e..m])
                crate::utf8_text::lemma_suffix_boundary(b, a, e);
                crate::utf8_text::lemma_suffix_boundary(b, a, m);
                let suffix = b.subrange(a, b.len() as int);
                crate::utf8_text::lemma_prefix_boundary(suffix, m - a, e - a);
                let piece = suffix.subrange(0, m - a);
                assert(piece =~= b.subrange(a, m));
                decode_utf8_split(piece, e - a);
                assert(piece.subrange(0, e - a) =~= b.subrange(a, e));
                assert(piece.subrange(e - a, piece.len() as int) =~= b.subrange(e, m));
            },
        }
    }
}

/// Build the tree from the events of a single node: `Start`, events that
/// cover the source from offset `a` (the node staying open), `Finish`.
/// Each token's text is cut from `src`.
pub fn build_tree(events: &Vec<Event>, src: &str, Ghost(a): Ghost<int>) -> (n: SyntaxNode)
    requires
        events@.len() >= 2,
        events@[0] is Start,
        events@.last() is Finish,
        0 <= a <= bytes_of(src).len(),
        is_char_boundary(bytes_of(src), a),
        seg(bytes_of(src), events@.subrange(1, events@.len() - 1), 1, a) is Some,
        seg(bytes_of(src), events@.subrange(1, events@.len() - 1), 1, a).unwrap().0 == 1,
    ensures
        node_events(n) == realize_all(bytes_of(src), events@),
{
    let ghost b = bytes_of(src);
    proof {
        lemma_str_bytes(src);
    }
    let root_kind = match events[0] {
        Event::Start(k) => k,
        _ => SyntaxKind::DOCKERFILE,
    };
    let mut stack: Vec<(SyntaxKind, Vec<SyntaxElement>)> = Vec::new();
    stack.push((root_kind, Vec::new()));
    let last = events.len() - 1;
    let mut j: usize = 1;
    let ghost mut cur: int = a;
    proof {
        assert(realize_all(b, events@.subrange(0, 1)) =~= frames_events(stack@)) by {
            reveal_with_fuel(frames_events, 2);
            assert(stack@.drop_last() =~= Seq::<(SyntaxKind, Vec<SyntaxElement>)>::empty());
            assert(elems_events(stack@.last().1@) =~= Seq::<TreeEvent>::empty());
        }
    }
    while j < last
        invariant
            b == bytes_of(src),
            valid_utf8(b),
            last == events@.len() - 1,
            1 <= j <= last,
            stack@.len() >= 1,
            0 <= cur <= b.len(),
            is_char_boundary(b, cur),
            realize_all(b, events@.subrange(0, j as int)) == frames_events(stack@),
            seg(b, events@.subrange(j as int, last as int), stack@.len() as int, cur) is Some,
            seg(b, events@.subrange(j as int, last as int), stack@.len() as int, cur).unwrap().0 == 1,
        decreases last - j,
    {
        let ghost rest = events@.subrange(j as int, last as int);
        let ghost old_stack = stack@;
        assert(rest[0] == events@[j as int]);
        assert(rest.drop_first() =~= events@.subrange(j + 1, last as int));
        assert(events@.subrange(0, j + 1) =~= events@.subrange(0, j as int).push(events@[j as int]));
        match events[j] {
            Event::Start(k) => {
                let fresh: Vec<SyntaxElement> = Vec::new();
                let ghost fresh_v = fresh;
                stack.push((k, fresh));
                proof {
                    frames_events_push_frame(old_stack, stack@, k, fresh_v);
                }
            },
            Event::Token(t) => {
                let text = substr(src, t.range.start as usize, t.range.end as usize);
                let tok = SyntaxToken { kind: t.kind, text: String::from_str(text) };
                let ghost tok_e = SyntaxElement::Token(tok);
                let (k, mut children) = stack.pop().unwrap();
                let ghost before = children;
                children.push(SyntaxElement::Token(tok));
                let ghost after = children;
                stack.push((k, children));
                proof {
                    frames_events_extend_top(old_stack, stack@, k, before, after, tok_e);
                    cur = t.range.end as int;
                }
            },
            Event::Finish => {
                let (k, children) = stack.pop().unwrap();
                let node = SyntaxNode { kind: k, children };
                let ghost node_g = node;
                let (pk, mut siblings) = stack.pop().unwrap();
                let ghost before = siblings;
                siblings.push(SyntaxElement::Node(node));
                let ghost after = siblings;
                stack.push((pk, siblings));
                proof {
                    frames_events_close(old_stack, stack@, pk, before, after, node_g);
                }
            },
        }
        j += 1;
    }
    let ghost final_stack = stack@;
    assert(events@.subrange(j as int, last as int) =~= Seq::<Event>::empty());
    assert(final_stack.len() == 1);
    assert(final_stack.drop_last() =~= Seq::<(SyntaxKind, Vec<SyntaxElement>)>::empty());
    let (k, children) = stack.pop().unwrap();
    let root = SyntaxNode { kind: k, children };
    proof {
        assert(frames_events(final_stack.drop_last()) =~= Seq::<TreeEvent>::empty());
        assert(frames_events(final_stack) =~= seq![TreeEvent::Open(k)] + elems_events(root.children@));
        assert(node_events(root) =~= frames_events(final_stack).push(TreeEvent::Close));
        assert(events@.subrange(last as int, last as int) =~= Seq::<Event>::empty());
        assert(events@ =~= events@.subrange(0, last as int).push(events@[last as int]));
        assert(realize_all(b, events@) =~= realize_all(b, events@.subrange(0, last as int)).push(TreeEvent::Close));
    }
    root
}

/// The preorder of a stack of open nodes: each frame is a node kind and the
/// children built so far.
pub open spec fn frames_events(st: Seq<(SyntaxKind, Vec<SyntaxElement>)>) -> Seq<TreeEvent>
    decreases st.len(),
{
    if st.len() == 0 {
        Seq::empty()
    } else {
        frames_events(st.drop_last()) + seq![TreeEvent::Open(st.last().0)] + elems_events(st.last().1@)
    }
}

proof fn frames_events_push_frame(st: Seq<(SyntaxKind, Vec<SyntaxElement>)>, new: Seq<(SyntaxKind, Vec<SyntaxElement>)>, k: SyntaxKind, v: Vec<SyntaxElement>)
    requires
        v@.len() == 0,
        new == st.push((k, v)),
    ensures
        frames_events(new) == frames_events(st).push(TreeEvent::Open(k)),
{
    assert(new.drop_last() =~= st);
    assert(elems_events(v@) =~= Seq::<TreeEvent>::empty());
    assert(frames_events(new) =~= frames_events(st).push(TreeEvent::Open(k)));
}

proof fn frames_events_extend_top(st: Seq<(SyntaxKind, Vec<SyntaxElement>)>, new: Seq<(SyntaxKind, Vec<SyntaxElement>)>, k: SyntaxKind, u: Vec<SyntaxElement>, v: Vec<SyntaxElement>, e: SyntaxElement)
    requires
        st.len() >= 1,
        st.last() == (k, u),
        v@ == u@.push(e),
        new == st.drop_last().push((k, v)),
    ensures
        frames_events(new) == frames_events(st) + elem_events(e),
{
    lemma_elems_events_push(u@, e);
    assert(new.drop_last() =~= st.drop_last());
    assert(frames_events(new) =~= frames_events(st) + elem_events(e));
}

proof fn frames_events_close(st: Seq<(SyntaxKind, Vec<SyntaxElement>)>, new: Seq<(SyntaxKind, Vec<SyntaxElement>)>, pk: SyntaxKind, u: Vec<SyntaxElement>, v: Vec<SyntaxElement>, node: SyntaxNode)
    requires
        st.len() >= 2,
        st.last() == (node.kind, node.children),
        st.drop_last().last() == (pk, u),
        v@ == u@.push(SyntaxElement::Node(node)),
        new == st.drop_last().drop_last().push((pk, v)),
    ensures
        frames_events(new) == frames_events(st).push(TreeEvent::Close),
{
    lemma_elems_events_push(u@, SyntaxElement::Node(node));
    let s1 = st.drop_last();
    assert(new.drop_last() =~= s1.drop_last());
    assert(frames_events(st) == frames_events(s1) + seq![TreeEvent::Open(node.kind)] + elems_events(node.children@));
    assert(frames_events(s1) == frames_events(s1.drop_last()) + seq![TreeEvent::Open(pk)] + elems_events(u@));
    assert(elem_events(SyntaxElement::Node(node)) == node_events(node));
    assert(frames_events(new) =~= frames_events(st).push(TreeEvent::Close));
}


/// The text of one element.
pub open spec fn elem_text(e: SyntaxElement) -> Seq<char> {
    match e {
        SyntaxElement::Node(n) => node_text(n),
        SyntaxElement::Token(t) => t.text@,
    }
}

pub proof fn lemma_elems_text_push(s: Seq<SyntaxElement>, e: SyntaxElement)
    ensures
        elems_text(s.push(e)) == elems_text(s) + elem_text(e),
    decreases s.len(),
{
    reveal_with_fuel(elems_text, 2);
    if s.len() == 0 {
        assert(s.push(e).drop_first() =~= Seq::<SyntaxElement>::empty());
        assert(elems_text(s.push(e)) =~= elem_text(e));
        assert(elems_text(s) + elem_text(e) =~= elem_text(e));
    } else {
        assert(s.push(e).drop_first() =~= s.drop_first().push(e));
        lemma_elems_text_push(s.drop_first(), e);
        assert(elems_text(s.push(e)) =~= elems_text(s) + elem_text(e));
    }
}

/// The child nodes among `s`, in order.
pub open spec fn elem_nodes(s: Seq<SyntaxElement>) -> Seq<SyntaxNode>
    decreases s.len(),
{
    if s.len() == 0 {
        Seq::empty()
    } else {
        let rest = elem_nodes(s.drop_first());
        match s[0] {
            SyntaxElement::Node(n) => seq![n] + rest,
            SyntaxElement::Token(_) => rest,
        }
    }
}

/// The nodes of kind `k` among `s`, in order.
pub open spec fn kind_nodes(s: Seq<SyntaxElement>, k: SyntaxKind) -> Seq<SyntaxNode>
    decreases s.len(),
{
    if s.len() == 0 {
        Seq::empty()
    } else {
        let rest = kind_nodes(s.drop_first(), k);
        match s[0] {
            SyntaxElement::Node(n) => if n.kind == k {
                seq![n] + rest
            } else {
                rest
            },
            SyntaxElement::Token(_) => rest,
        }
    }
}

/// The texts of the tokens of kind `k` among `s`, in order.
pub open spec fn kind_token_texts(s: Seq<SyntaxElement>, k: SyntaxKind) -> Seq<Seq<char>>
    decreases s.len(),
{
    if s.len() == 0 {
        Seq::empty()
    } else {
        let rest = kind_token_texts(s.drop_first(), k);
        match s[0] {
            SyntaxElement::Token(t) => if t.kind == k {
                seq![t.text@] + rest
            } else {
                rest
            },
            SyntaxElement::Node(_) => rest,
        }
    }
}

/// The references, dereferenced.
pub open spec fn derefs<'a>(s: Seq<&'a SyntaxNode>) -> Seq<SyntaxNode> {
    s.map_values(|r: &'a SyntaxNode| *r)
}

/// The views of a list of strings.
pub open spec fn string_views(s: Seq<String>) -> Seq<Seq<char>> {
    s.map_values(|t: String| t@)
}

pub proof fn lemma_elem_nodes_push(s: Seq<SyntaxElement>, e: SyntaxElement)
    ensures
        elem_nodes(s.push(e)) == elem_nodes(s) + match e {
            SyntaxElement::Node(n) => seq![n],
            SyntaxElement::Token(_) => Seq::<SyntaxNode>::empty(),
        },
    decreases s.len(),
{
    reveal_with_fuel(elem_nodes, 2);
    if s.len() == 0 {
        assert(s.push(e).drop_first() =~= Seq::<SyntaxElement>::empty());
    } else {
        assert(s.push(e).drop_first() =~= s.drop_first().push(e));
        lemma_elem_nodes_push(s.drop_first(), e);
    }
    assert(elem_nodes(s.push(e)) =~= elem_nodes(s) + match e {
        SyntaxElement::Node(n) => seq![n],
        SyntaxElement::Token(_) => Seq::<SyntaxNode>::empty(),
    });
}

pub proof fn lemma_kind_nodes_push(s: Seq<SyntaxElement>, e: SyntaxElement, k: SyntaxKind)
    ensures
        kind_nodes(s.push(e), k) == kind_nodes(s, k) + match e {
            SyntaxElement::Node(n) => if n.kind == k {
                seq![n]
            } else {
                Seq::<SyntaxNode>::empty()
            },
            SyntaxElement::Token(_) => Seq::<SyntaxNode>::empty(),
        },
    decreases s.len(),
{
    reveal_with_fuel(kind_nodes, 2);
    if s.len() == 0 {
        assert(s.push(e).drop_first() =~= Seq::<SyntaxElement>::empty());
    } else {
        assert(s.push(e).drop_first() =~= s.drop_first().push(e));
        lemma_kind_nodes_push(s.drop_first(), e, k);
    }
    assert(kind_nodes(s.push(e), k) =~= kind_nodes(s, k) + match e {
        SyntaxElement::Node(n) => if n.kind == k {
            seq![n]
        } else {
            Seq::<SyntaxNode>::empty()
        },
        SyntaxElement::Token(_) => Seq::<SyntaxNode>::empty(),
    });
}

pub proof fn lemma_kind_token_texts_push(s: Seq<SyntaxElement>, e: SyntaxElement, k: SyntaxKind)
    ensures
        kind_token_texts(s.push(e), k) == kind_token_texts(s, k) + match e {
            SyntaxElement::Token(t) => if t.kind == k {
                seq![t.text@]
            } else {
                Seq::<Seq<char>>::empty()
            },
            SyntaxElement::Node(_) => Seq::<Seq<char>>::empty(),
        },
    decreases s.len(),
{
    reveal_with_fuel(kind_token_texts, 2);
    if s.len() == 0 {
        assert(s.push(e).drop_first() =~= Seq::<SyntaxElement>::empty());
    } else {
        assert(s.push(e).drop_first() =~= s.drop_first().push(e));
        lemma_kind_token_texts_push(s.drop_first(), e, k);
    }
    assert(kind_token_texts(s.push(e), k) =~= kind_token_texts(s, k) + match e {
        SyntaxElement::Token(t) => if t.kind == k {
            seq![t.text@]
        } else {
            Seq::<Seq<char>>::empty()
        },
        SyntaxElement::Node(_) => Seq::<Seq<char>>::empty(),
    });
}

impl SyntaxNode {
    /// The kind of this node.
    pub fn kind(&self) -> (r: SyntaxKind)
        ensures
            r == self.kind,
    {
        self.kind
    }

    /// The text of this node: its tokens' texts, in order — exactly the
    /// source text it covers.
    pub fn text(&self) -> (r: String)
        ensures
            r@ == node_text(*self),
        decreases self,
    {
        let mut r = String::new();
        let mut i: usize = 0;
        while i < self.children.len()
            invariant
                i <= self.children@.len(),
                r@ == elems_text(self.children@.subrange(0, i as int)),
            decreases self.children@.len() - i,
        {
            proof {
                assert(self.children@.subrange(0, i + 1) =~= self.children@.subrange(0, i as int).push(self.children@[i as int]));
                lemma_elems_text_push(self.children@.subrange(0, i as int), self.children@[i as int]);
            }
            match &self.children[i] {
                SyntaxElement::Node(child) => {
                    proof {
                        assert(decreases_to!(self.children => self.children[i as int]));
                    }
                    let t = child.text();
                    r.append(t.as_str());
                },
                SyntaxElement::Token(tok) => {
                    r.append(tok.text.as_str());
                },
            }
            i += 1;
        }
        proof {
            assert(self.children@.subrange(0, self.children@.len() as int) =~= self.children@);
        }
        r
    }

    /// The child nodes of this node, in order (tokens left out).
    pub fn children(&self) -> (r: Vec<&SyntaxNode>)
        ensures
            derefs(r@) == elem_nodes(self.children@),
    {
        let mut r: Vec<&SyntaxNode> = Vec::new();
        let mut i: usize = 0;
        while i < self.children.len()
            invariant
                i <= self.children@.len(),
                derefs(r@) == elem_nodes(self.children@.subrange(0, i as int)),
            decreases self.children@.len() - i,
        {
            proof {
                assert(self.children@.subrange(0, i + 1) =~= self.children@.subrange(0, i as int).push(self.children@[i as int]));
                lemma_elem_nodes_push(self.children@.subrange(0, i as int), self.children@[i as int]);
            }
            match &self.children[i] {
                SyntaxElement::Node(child) => {
                    r.push(child);
                    assert(derefs(r@) =~= derefs(r@.drop_last()).push(*child));
                },
                SyntaxElement::Token(_) => {},
            }
            i += 1;
        }
        proof {
            assert(self.children@.subrange(0, self.children@.len() as int) =~= self.children@);
        }
        r
    }

    /// The child nodes of kind `k`, in order.
    pub fn children_of_kind(&self, k: SyntaxKind) -> (r: Vec<&SyntaxNode>)
        ensures
            derefs(r@) == kind_nodes(self.children@, k),
    {
        let mut r: Vec<&SyntaxNode> = Vec::new();
        let mut i: usize = 0;
        while i < self.children.len()
            invariant
                i <= self.children@.len(),
                derefs(r@) == kind_nodes(self.children@.subrange(0, i as int), k),
            decreases self.children@.len() - i,
        {
            proof {
                assert(self.children@.subrange(0, i + 1) =~= self.children@.subrange(0, i as int).push(self.children@[i as int]));
                lemma_kind_nodes_push(self.children@.subrange(0, i as int), self.children@[i as int], k);
            }
            match &self.children[i] {
                SyntaxElement::Node(child) => {
                    if child.kind == k {
                        r.push(child);
                        assert(derefs(r@) =~= derefs(r@.drop_last()).push(*child));
                    }
                },
                SyntaxElement::Token(_) => {},
            }
            i += 1;
        }
        proof {
            assert(self.children@.subrange(0, self.children@.len() as int) =~= self.children@);
        }
        r
    }

    /// The first child node of kind `k`, if any.
    pub fn first_child_of_kind(&self, k: SyntaxKind) -> (r: Option<&SyntaxNode>)
        ensures
            match r {
                Some(c) => kind_nodes(self.children@, k).len() > 0 && *c == kind_nodes(self.children@, k)[0],
                None => kind_nodes(self.children@, k).len() == 0,
            },
    {
        let mut i: usize = 0;
        while i < self.children.len()
            invariant
                i <= self.children@.len(),
                kind_nodes(self.children@.subrange(0, i as int), k).len() == 0,
            decreases self.children@.len() - i,
        {
            proof {
                assert(self.children@.subrange(0, i + 1) =~= self.children@.subrange(0, i as int).push(self.children@[i as int]));
                lemma_kind_nodes_push(self.children@.subrange(0, i as int), self.children@[i as int], k);
                lemma_kind_nodes_split(self.children@, i as int + 1, k);
            }
            match &self.children[i] {
                SyntaxElement::Node(child) => {
                    if child.kind == k {
                        return Some(child);
                    }
                },
                SyntaxElement::Token(_) => {},
            }
            i += 1;
        }
        proof {
            assert(self.children@.subrange(0, self.children@.len() as int) =~= self.children@);
        }
        None
    }

    /// The texts of the child tokens of kind `k`, in order.
    pub fn token_texts_of_kind(&self, k: SyntaxKind) -> (r: Vec<String>)
        ensures
            string_views(r@) == kind_token_texts(self.children@, k),
    {
        let mut r: Vec<String> = Vec::new();
        let mut i: usize = 0;
        while i < self.children.len()
            invariant
                i <= self.children@.len(),
                string_views(r@) == kind_token_texts(self.children@.subrange(0, i as int), k),
            decreases self.children@.len() - i,
        {
            proof {
                assert(self.children@.subrange(0, i + 1) =~= self.children@.subrange(0, i as int).push(self.children@[i as int]));
                lemma_kind_token_texts_push(self.children@.subrange(0, i as int), self.children@[i as int], k);
            }
            match &self.children[i] {
                SyntaxElement::Token(tok) => {
                    if tok.kind == k {
                        r.push(tok.text.clone());
                        assert(string_views(r@) =~= string_views(r@.drop_last()).push(tok.text@));
                    }
                },
                SyntaxElement::Node(_) => {},
            }
            i += 1;
        }
        proof {
            assert(self.children@.subrange(0, self.children@.len() as int) =~= self.children@);
        }
        r
    }
}

/// The nodes of kind `k` among a prefix come first among those of the whole.
pub proof fn lemma_kind_nodes_split(s: Seq<SyntaxElement>, i: int, k: SyntaxKind)
    requires
        0 <= i <= s.len(),
    ensures
        kind_nodes(s, k) == kind_nodes(s.subrange(0, i), k) + kind_nodes(s.subrange(i, s.len() as int), k),
    decreases s.len() - i,
{
    if i == s.len() {
        assert(s.subrange(0, i) =~= s);
        assert(s.subrange(i, s.len() as int) =~= Seq::<SyntaxElement>::empty());
        assert(kind_nodes(s, k) + Seq::<SyntaxNode>::empty() =~= kind_nodes(s, k));
    } else {
        lemma_kind_nodes_split(s, i + 1, k);
        assert(s.subrange(0, i + 1) =~= s.subrange(0, i).push(s[i]));
        lemma_kind_nodes_push(s.subrange(0, i), s[i], k);
        let t = s.subrange(i, s.len() as int);
        assert(t[0] == s[i]);
        assert(t.drop_first() =~= s.subrange(i + 1, s.len() as int));
        assert(kind_nodes(s, k) =~= kind_nodes(s.subrange(0, i), k) + kind_nodes(t, k));
    }
}
} // verus!
