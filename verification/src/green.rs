//! The `rowan` green tree of a parse.
//!
//! The parser's events are replayed into a `rowan::GreenNodeBuilder`, which
//! builds the immutable, cheaply shared green tree that `rowan`-based tools
//! consume. Kinds are stored as their raw `u16` numbers
//! ([`SyntaxKind::to_u16`]).

use vstd::prelude::*;
use vstd::utf8::*;

use rowan::{GreenNode, GreenNodeBuilder};

use crate::grammar::Event;
use crate::kind::SyntaxKind;
use crate::lossless::seg;
use crate::tree::{leaves_text, lemma_leaves_text_concat, lemma_seg_text, realize, realize_all, TreeEvent};
use crate::utf8_text::{bytes_of, lemma_str_bytes, substr};

verus! {

#[verifier::external_type_specification]
#[verifier::external_body]
pub struct ExGreenNode(GreenNode);

#[verifier::external_type_specification]
#[verifier::external_body]
pub struct ExGreenNodeBuilder<'cache>(GreenNodeBuilder<'cache>);

/// The contents of a green-tree builder: the calls made on it so far, as a
/// preorder (`start_node`, `token`, `finish_node`).
pub uninterp spec fn builder_events(b: GreenNodeBuilder<'static>) -> Seq<TreeEvent>;

/// The contents of a green node, in preorder.
pub uninterp spec fn green_events(g: GreenNode) -> Seq<TreeEvent>;

/// Runs through tree events from depth `d`: `Open` deepens, `Close` needs a
/// node other than the outermost open, a leaf needs an open node. The final
/// depth, or `None`.
pub open spec fn tree_depth(tes: Seq<TreeEvent>, d: int) -> Option<int>
    decreases tes.len(),
{
    if tes.len() == 0 {
        Some(d)
    } else {
        match tes[0] {
            TreeEvent::Open(_) => tree_depth(tes.drop_first(), d + 1),
            TreeEvent::Close => if d >= 2 {
                tree_depth(tes.drop_first(), d - 1)
            } else {
                None
            },
            TreeEvent::Leaf(_, _) => if d >= 1 {
                tree_depth(tes.drop_first(), d)
            } else {
                None
            },
        }
    }
}

/// The number of nodes opened and not closed.
pub open spec fn open_nodes(tes: Seq<TreeEvent>) -> int
    decreases tes.len(),
{
    if tes.len() == 0 {
        0
    } else {
        open_nodes(tes.drop_last()) + match tes.last() {
            TreeEvent::Open(_) => 1int,
            TreeEvent::Close => -1int,
            TreeEvent::Leaf(_, _) => 0int,
        }
    }
}

/// The events are those of exactly one node.
pub open spec fn single_node(tes: Seq<TreeEvent>) -> bool {
    &&& tes.len() >= 2
    &&& tes[0] is Open
    &&& tes.last() is Close
    &&& tree_depth(tes.subrange(1, tes.len() - 1), 1) == Some(1int)
}

/// `GreenNodeBuilder::new`: an empty builder.
#[verifier::external_body]
fn builder_new() -> (b: GreenNodeBuilder<'static>)
    ensures
        builder_events(b) == Seq::<TreeEvent>::empty(),
{
    GreenNodeBuilder::new()
}

/// `GreenNodeBuilder::start_node`: opens a node of `kind`.
#[verifier::external_body]
fn builder_start_node(b: &mut GreenNodeBuilder<'static>, kind: SyntaxKind)
    ensures
        builder_events(*final(b)) == builder_events(*old(b)).push(TreeEvent::Open(kind)),
{
    b.start_node(rowan::SyntaxKind(kind.to_u16()));
}

/// `GreenNodeBuilder::token`: adds a token of `kind` with text `text` to the
/// open node.
#[verifier::external_body]
fn builder_token(b: &mut GreenNodeBuilder<'static>, kind: SyntaxKind, text: &str)
    ensures
        builder_events(*final(b)) == builder_events(*old(b)).push(TreeEvent::Leaf(kind, text@)),
{
    b.token(rowan::SyntaxKind(kind.to_u16()), text);
}

/// The length in UTF-8 bytes of the texts of the leaves of `tes`.
pub open spec fn leaves_len(tes: Seq<TreeEvent>) -> int {
    encode_utf8(leaves_text(tes)).len() as int
}

/// `GreenNodeBuilder::finish_node`: closes the node opened last. It panics
/// when no node is open; it measures the node's text, and each token's, in
/// `u32` offsets, so the texts added so far must fit in `u32::MAX` bytes.
#[verifier::external_body]
fn builder_finish_node(b: &mut GreenNodeBuilder<'static>)
    requires
        open_nodes(builder_events(*old(b))) >= 1,
        leaves_len(builder_events(*old(b))) <= u32::MAX,
    ensures
        builder_events(*final(b)) == builder_events(*old(b)).push(TreeEvent::Close),
{
    b.finish_node();
}

/// `GreenNodeBuilder::finish`: the built node; it panics unless exactly one
/// complete node was built.
#[verifier::external_body]
fn builder_finish(b: GreenNodeBuilder<'static>) -> (g: GreenNode)
    requires
        single_node(builder_events(b)),
    ensures
        green_events(g) == builder_events(b),
{
    b.finish()
}

/// `GreenNode`'s `Display` (through `to_string`): the texts of its tokens,
/// in order.
#[verifier::external_body]
pub(crate) fn green_text(g: &GreenNode) -> (r: String)
    ensures
        r@ == leaves_text(green_events(*g)),
{
    g.to_string()
}

pub proof fn lemma_open_nodes_push(tes: Seq<TreeEvent>, e: TreeEvent)
    ensures
        open_nodes(tes.push(e)) == open_nodes(tes) + match e {
            TreeEvent::Open(_) => 1int,
            TreeEvent::Close => -1int,
            TreeEvent::Leaf(_, _) => 0int,
        },
{
    assert(tes.push(e).drop_last() =~= tes);
}

/// The texts of the leaves of a prefix of some events are no longer than
/// those of all the events.
proof fn lemma_prefix_leaves_len(b: Seq<u8>, es: Seq<Event>, j: int)
    requires
        0 <= j <= es.len(),
    ensures
        leaves_len(realize_all(b, es.subrange(0, j))) <= leaves_len(realize_all(b, es)),
{
    let x = realize_all(b, es.subrange(0, j));
    let y = realize_all(b, es.subrange(j, es.len() as int));
    assert(realize_all(b, es) =~= x + y);
    lemma_leaves_text_concat(x, y);
    crate::utf8_text::lemma_encode_concat(leaves_text(x), leaves_text(y));
}

/// Covered events, realized, keep the depth they are covered with.
pub proof fn lemma_seg_depth(b: Seq<u8>, es: Seq<Event>, d: int, a: int)
    requires
        seg(b, es, d, a) is Some,
    ensures
        tree_depth(realize_all(b, es), d) == Some(seg(b, es, d, a).unwrap().0),
    decreases es.len(),
{
    let r = realize_all(b, es);
    if es.len() > 0 {
        assert(r.drop_first() =~= realize_all(b, es.drop_first()));
        match es[0] {
            Event::Start(_) => lemma_seg_depth(b, es.drop_first(), d + 1, a),
            Event::Finish => lemma_seg_depth(b, es.drop_first(), d - 1, a),
            Event::Token(t) => lemma_seg_depth(b, es.drop_first(), d, t.range.end as int),
        }
    }
}

/// Build the green tree from the events of a single node: `Start`, events
/// that cover the source from offset `a` (the node staying open), `Finish`.
pub fn build_green(events: &Vec<Event>, src: &str, Ghost(a): Ghost<int>) -> (g: GreenNode)
    requires
        events@.len() >= 2,
        events@[0] is Start,
        events@.last() is Finish,
        0 <= a <= bytes_of(src).len(),
        is_char_boundary(bytes_of(src), a),
        seg(bytes_of(src), events@.subrange(1, events@.len() - 1), 1, a) is Some,
        seg(bytes_of(src), events@.subrange(1, events@.len() - 1), 1, a).unwrap().0 == 1,
        bytes_of(src).len() <= u32::MAX,
    ensures
        green_events(g) == realize_all(bytes_of(src), events@),
{
    let ghost b = bytes_of(src);
    proof {
        lemma_str_bytes(src);
        let inner = events@.subrange(1, events@.len() - 1);
        lemma_seg_depth(b, inner, 1, a);
        assert(realize_all(b, events@).subrange(1, events@.len() - 1) =~= realize_all(b, inner));
        // The whole text is the source piece the events cover.
        lemma_seg_text(b, inner, 1, a);
        let m = seg(b, inner, 1, a).unwrap().1;
        crate::utf8_text::lemma_suffix_boundary(b, a, m);
        let t = b.subrange(a, b.len() as int);
        crate::utf8_text::lemma_prefix_boundary(t, m - a, m - a);
        assert(t.subrange(0, m - a) =~= b.subrange(a, m));
        decode_utf8_encode_utf8(b.subrange(a, m));
        let open = seq![realize(b, events@[0])];
        let close = seq![realize(b, events@.last())];
        assert(realize_all(b, events@) =~= open + realize_all(b, inner) + close);
        lemma_leaves_text_concat(open, realize_all(b, inner));
        lemma_leaves_text_concat(open + realize_all(b, inner), close);
        reveal_with_fuel(leaves_text, 2);
        assert(leaves_text(open) =~= Seq::<char>::empty());
        assert(leaves_text(close) =~= Seq::<char>::empty());
        assert(leaves_text(realize_all(b, events@)) =~= leaves_text(realize_all(b, inner)));
        assert(leaves_len(realize_all(b, events@)) <= u32::MAX);
    }
    let mut builder = builder_new();
    let last = events.len() - 1;
    let mut j: usize = 0;
    let ghost mut depth: int = 0;
    let ghost mut cur: int = a;
    while j < last
        invariant
            b == bytes_of(src),
            valid_utf8(b),
            last == events@.len() - 1,
            j <= last,
            builder_events(builder) == realize_all(b, events@.subrange(0, j as int)),
            open_nodes(builder_events(builder)) == depth,
            j == 0 ==> depth == 0 && cur == a,
            j >= 1 ==> depth >= 1,
            0 <= cur <= b.len(),
            is_char_boundary(b, cur),
            j >= 1 ==> seg(b, events@.subrange(j as int, last as int), depth, cur) is Some,
            j >= 1 ==> seg(b, events@.subrange(j as int, last as int), depth, cur).unwrap().0 == 1,
            events@[0] is Start,
            seg(b, events@.subrange(1, last as int), 1, a) is Some,
            seg(b, events@.subrange(1, last as int), 1, a).unwrap().0 == 1,
            leaves_len(realize_all(b, events@)) <= u32::MAX,
        decreases last - j,
    {
        let ghost before = builder_events(builder);
        assert(events@.subrange(0, j + 1) =~= events@.subrange(0, j as int).push(events@[j as int]));
        assert(realize_all(b, events@.subrange(0, j + 1)) =~= realize_all(b, events@.subrange(0, j as int)).push(realize(b, events@[j as int])));
        if j >= 1 {
            let ghost rest = events@.subrange(j as int, last as int);
            assert(rest[0] == events@[j as int]);
            assert(rest.drop_first() =~= events@.subrange(j + 1, last as int));
        }
        match events[j] {
            Event::Start(k) => {
                builder_start_node(&mut builder, k);
                proof {
                    lemma_open_nodes_push(before, TreeEvent::Open(k));
                    depth = depth + 1;
                }
            },
            Event::Token(t) => {
                let text = substr(src, t.range.start as usize, t.range.end as usize);
                builder_token(&mut builder, t.kind, text);
                proof {
                    lemma_open_nodes_push(before, realize(b, Event::Token(t)));
                    cur = t.range.end as int;
                }
            },
            Event::Finish => {
                proof {
                    lemma_prefix_leaves_len(b, events@, j as int);
                }
                builder_finish_node(&mut builder);
                proof {
                    lemma_open_nodes_push(before, TreeEvent::Close);
                    depth = depth - 1;
                }
            },
        }
        j += 1;
    }
    proof {
        assert(events@.subrange(last as int, last as int) =~= Seq::<Event>::empty());
        lemma_open_nodes_push(builder_events(builder), TreeEvent::Close);
        lemma_prefix_leaves_len(b, events@, last as int);
    }
    builder_finish_node(&mut builder);
    proof {
        assert(events@ =~= events@.subrange(0, last as int).push(events@[last as int]));
        assert(realize_all(b, events@) =~= realize_all(b, events@.subrange(0, last as int)).push(TreeEvent::Close));
    }
    builder_finish(builder)
}

} // verus!
