//! Trivia handling of the syntax tree: trivia between instructions stays at
//! the document level, an instruction's node holds its logical line only,
//! and the newline that ends the line is left after the node.
//!
//! It is shown first over the parser's events, item by item
//! ([`lemma_top_item_placement`]), then for the directive block from the
//! lexer's tokens, and finally over the children of the built tree
//! ([`lemma_tree_placement`], which [`crate::document::parse`] ensures).

use vstd::prelude::*;

use crate::grammar::{
    arg_body, body_at, body_events, copy_body, exec_form_ahead, exec_form_at, flag_at, flag_events, flags,
    from_body, generic_body, instruction, kv_body, kv_pair_events, lemma_flag_events, lemma_flags,
    lemma_generic_body, lemma_kv_body, lemma_kv_pair_events, lemma_line_stop,
    lemma_skip_intraline, line_stop, on_line, runlike_body, skip_intraline, split_events,
    stage_clause, tok_events, top_item, top_level, word_at, seek_directive, directive_block, wrap_line, wrapped, Event,
};
use crate::directive::{directive_at, directives_from, lemma_directives_contiguous};
use crate::document::{directive_lines, file_tokens, lemma_directives_in_bounds, lemma_escape_of, parse_events};
use crate::kind::SyntaxKind;
use crate::lexer::{
    blanks_end, continuation_at, escape_byte, is_blank_byte, is_newline_byte, lemma_blanks_end,
    lemma_lex_steps, lemma_lex_tiles, lemma_line_end, lex_from, line_end, newline_end, scan,
    starts_logical_line, Token,
};
use crate::text_range::TextRange;
use crate::tree::{elem_events, elems_events, node_events, realize, realize_all, SyntaxElement, SyntaxNode, TreeEvent};

verus! {

/// The event is a `NEWLINE` token.
pub open spec fn newline_event(e: Event) -> bool {
    e matches Event::Token(t) && t.kind is NEWLINE
}

/// No event of `es` is a `NEWLINE` token.
pub open spec fn no_newline(es: Seq<Event>) -> bool {
    forall|i: int| 0 <= i < es.len() ==> !newline_event(#[trigger] es[i])
}

/// A logical line ends at `q`: a `NEWLINE` token is there, or the tokens end.
pub open spec fn line_ends_at(toks: Seq<Token>, q: int) -> bool {
    q == toks.len() || (0 <= q < toks.len() && toks[q].kind is NEWLINE)
}

/// How deep the events leave the nodes they open, starting at depth `d`: a
/// `Finish` needs a node opened within the events. `None` when one closes
/// more than they opened.
pub open spec fn ev_depth(es: Seq<Event>, d: int) -> Option<int>
    decreases es.len(),
{
    if es.len() == 0 {
        Some(d)
    } else {
        match es[0] {
            Event::Start(_) => ev_depth(es.drop_first(), d + 1),
            Event::Finish => if d >= 1 {
                ev_depth(es.drop_first(), d - 1)
            } else {
                None
            },
            Event::Token(_) => ev_depth(es.drop_first(), d),
        }
    }
}

/// The events hold no `NEWLINE` token and close every node they open, and
/// no other.
pub open spec fn clean(es: Seq<Event>) -> bool {
    no_newline(es) && ev_depth(es, 0) == Some(0int)
}

/// None of the tokens at `p..q` is a `NEWLINE`.
pub open spec fn no_newline_in(toks: Seq<Token>, p: int, q: int) -> bool {
    forall|j: int| p <= j < q ==> !(#[trigger] toks[j].kind is NEWLINE)
}

proof fn lemma_no_newline_concat(x: Seq<Event>, y: Seq<Event>)
    requires
        no_newline(x),
        no_newline(y),
    ensures
        no_newline(x + y),
{
    assert forall|i: int| 0 <= i < (x + y).len() implies !newline_event(#[trigger] (x + y)[i]) by {
        if i < x.len() {
            assert((x + y)[i] == x[i]);
        } else {
            assert((x + y)[i] == y[i - x.len()]);
        }
    }
}

proof fn lemma_ev_depth_concat(x: Seq<Event>, y: Seq<Event>, d: int)
    ensures
        ev_depth(x + y, d) == match ev_depth(x, d) {
            Some(e) => ev_depth(y, e),
            None => None,
        },
    decreases x.len(),
{
    if x.len() == 0 {
        assert(x + y =~= y);
    } else {
        assert((x + y).drop_first() =~= x.drop_first() + y);
        assert((x + y)[0] == x[0]);
        match x[0] {
            Event::Start(_) => lemma_ev_depth_concat(x.drop_first(), y, d + 1),
            Event::Finish => if d >= 1 {
                lemma_ev_depth_concat(x.drop_first(), y, d - 1);
            },
            Event::Token(_) => lemma_ev_depth_concat(x.drop_first(), y, d),
        }
    }
}

proof fn lemma_ev_depth_shift(x: Seq<Event>, d: int, e: int)
    requires
        ev_depth(x, d) == Some(e),
        d >= 0,
    ensures
        ev_depth(x, d + 1) == Some(e + 1),
    decreases x.len(),
{
    if x.len() > 0 {
        match x[0] {
            Event::Start(_) => lemma_ev_depth_shift(x.drop_first(), d + 1, e),
            Event::Finish => lemma_ev_depth_shift(x.drop_first(), d - 1, e),
            Event::Token(_) => lemma_ev_depth_shift(x.drop_first(), d, e),
        }
    }
}

/// Events that are all tokens leave the depth as it is.
proof fn lemma_ev_depth_tokens(x: Seq<Event>, d: int)
    requires
        forall|i: int| 0 <= i < x.len() ==> (#[trigger] x[i]) is Token,
    ensures
        ev_depth(x, d) == Some(d),
    decreases x.len(),
{
    if x.len() > 0 {
        assert(x[0] is Token);
        assert forall|i: int| 0 <= i < x.drop_first().len() implies (#[trigger] x.drop_first()[i]) is Token by {
            assert(x.drop_first()[i] == x[i + 1]);
        }
        lemma_ev_depth_tokens(x.drop_first(), d);
    }
}

proof fn lemma_clean_concat(x: Seq<Event>, y: Seq<Event>)
    requires
        clean(x),
        clean(y),
    ensures
        clean(x + y),
{
    lemma_no_newline_concat(x, y);
    lemma_ev_depth_concat(x, y, 0);
}

proof fn lemma_clean_wrapped(k: SyntaxKind, x: Seq<Event>)
    requires
        clean(x),
    ensures
        clean(wrapped(k, x)),
{
    lemma_no_newline_concat(seq![Event::Start(k)], x);
    lemma_no_newline_concat(seq![Event::Start(k)] + x, seq![Event::Finish]);
    lemma_ev_depth_shift(x, 0, 0);
    lemma_ev_depth_concat(seq![Event::Start(k)], x, 0);
    lemma_ev_depth_concat(seq![Event::Start(k)] + x, seq![Event::Finish], 0);
    reveal_with_fuel(ev_depth, 2);
}

proof fn lemma_clean_token(t: Token)
    requires
        !(t.kind is NEWLINE),
    ensures
        clean(seq![Event::Token(t)]),
{
    reveal_with_fuel(ev_depth, 2);
}

proof fn lemma_clean_tok_events(toks: Seq<Token>, p: int, q: int)
    requires
        0 <= p <= q <= toks.len(),
        no_newline_in(toks, p, q),
    ensures
        clean(tok_events(toks, p, q)),
{
    assert forall|i: int| 0 <= i < tok_events(toks, p, q).len() implies !newline_event(
        #[trigger] tok_events(toks, p, q)[i],
    ) by {
        assert(tok_events(toks, p, q)[i] == Event::Token(toks[p + i]));
    }
    lemma_ev_depth_tokens(tok_events(toks, p, q), 0);
}

proof fn lemma_clean_split(t: Token, k: int)
    ensures
        clean(split_events(t, k)),
{
    lemma_ev_depth_tokens(split_events(t, k), 0);
}

proof fn lemma_skip_intraline_clean(toks: Seq<Token>, p: int)
    requires
        0 <= p <= toks.len(),
    ensures
        no_newline_in(toks, p, skip_intraline(toks, p)),
        clean(tok_events(toks, p, skip_intraline(toks, p))),
{
    lemma_skip_intraline(toks, p);
    lemma_clean_tok_events(toks, p, skip_intraline(toks, p));
}

/// A flag or key-value pair at a non-newline token `p` covers tokens off
/// the newline and emits none.
proof fn lemma_pair_clean(b: Seq<u8>, toks: Seq<Token>, p: int)
    requires
        0 <= p < toks.len(),
        !(toks[p].kind is NEWLINE),
    ensures
        clean(flag_events(b, toks, p).1),
        no_newline_in(toks, p, flag_events(b, toks, p).0),
        clean(kv_pair_events(b, toks, p).1),
        no_newline_in(toks, p, kv_pair_events(b, toks, p).0),
{
    lemma_flag_events(b, toks, p);
    lemma_kv_pair_events(b, toks, p);
    let t = toks[p];
    lemma_clean_token(t);
    assert forall|k: int| #![auto] clean(split_events(t, k) + seq![Event::Token(toks[p + 1])])
        || !(p + 1 < toks.len() && toks[p + 1].kind is STRING) by {
        if p + 1 < toks.len() && toks[p + 1].kind is STRING {
            lemma_clean_split(t, k);
            lemma_clean_token(toks[p + 1]);
            lemma_clean_concat(split_events(t, k), seq![Event::Token(toks[p + 1])]);
        }
    }
    assert forall|k: int| #![auto] clean(split_events(t, k)) by {
        lemma_clean_split(t, k);
    }
    assert forall|k: int| #![auto] clean(wrapped(SyntaxKind::FLAG, split_events(t, k))) by {
        lemma_clean_split(t, k);
        lemma_clean_wrapped(SyntaxKind::FLAG, split_events(t, k));
    }
    assert forall|k: int| #![auto] clean(wrapped(SyntaxKind::KEY_VALUE, split_events(t, k))) by {
        lemma_clean_split(t, k);
        lemma_clean_wrapped(SyntaxKind::KEY_VALUE, split_events(t, k));
    }
    assert forall|k: int|
        #![auto]
        p + 1 < toks.len() && toks[p + 1].kind is STRING ==> clean(
            wrapped(SyntaxKind::FLAG, split_events(t, k) + seq![Event::Token(toks[p + 1])]),
        ) && clean(
            wrapped(SyntaxKind::KEY_VALUE, split_events(t, k) + seq![Event::Token(toks[p + 1])]),
        ) by {
        if p + 1 < toks.len() && toks[p + 1].kind is STRING {
            lemma_clean_split(t, k);
            lemma_clean_token(toks[p + 1]);
            lemma_clean_concat(split_events(t, k), seq![Event::Token(toks[p + 1])]);
            lemma_clean_wrapped(SyntaxKind::FLAG, split_events(t, k) + seq![Event::Token(toks[p + 1])]);
            lemma_clean_wrapped(SyntaxKind::KEY_VALUE, split_events(t, k) + seq![Event::Token(toks[p + 1])]);
        }
    }
    lemma_clean_wrapped(SyntaxKind::FLAG, seq![Event::Token(t)]);
    lemma_line_stop(toks, p + 1);
    let q = line_stop(toks, p + 1);
    lemma_clean_tok_events(toks, p, q);
    lemma_clean_wrapped(SyntaxKind::KEY_VALUE, tok_events(toks, p, q));
}

proof fn lemma_flags_clean(b: Seq<u8>, toks: Seq<Token>, p: int)
    requires
        0 <= p <= toks.len(),
    ensures
        clean(flags(b, toks, p).1),
        no_newline_in(toks, p, flags(b, toks, p).0),
    decreases toks.len() - p,
{
    lemma_skip_intraline_clean(toks, p);
    lemma_skip_intraline(toks, p);
    let i = skip_intraline(toks, p);
    let triv = tok_events(toks, p, i);
    if flag_at(b, toks, i) {
        lemma_pair_clean(b, toks, i);
        let (q, f) = flag_events(b, toks, i);
        lemma_flag_events(b, toks, i);
        lemma_flags_clean(b, toks, q);
        let (r, rest) = flags(b, toks, q);
        lemma_clean_concat(triv, f);
        lemma_clean_concat(triv + f, rest);
    }
}

proof fn lemma_generic_body_clean(b: Seq<u8>, toks: Seq<Token>, p: int)
    requires
        0 <= p <= toks.len(),
    ensures
        clean(generic_body(b, toks, p).1),
        line_ends_at(toks, generic_body(b, toks, p).0),
    decreases toks.len() - p,
{
    if on_line(toks, p) {
        if flag_at(b, toks, p) {
            lemma_pair_clean(b, toks, p);
            let (q, f) = flag_events(b, toks, p);
            lemma_flag_events(b, toks, p);
            lemma_generic_body_clean(b, toks, q);
            lemma_clean_concat(f, generic_body(b, toks, q).1);
        } else {
            lemma_generic_body_clean(b, toks, p + 1);
            lemma_clean_token(toks[p]);
            lemma_clean_concat(seq![Event::Token(toks[p])], generic_body(b, toks, p + 1).1);
        }
    }
}

proof fn lemma_kv_body_clean(b: Seq<u8>, toks: Seq<Token>, p: int)
    requires
        0 <= p <= toks.len(),
    ensures
        clean(kv_body(b, toks, p).1),
        line_ends_at(toks, kv_body(b, toks, p).0),
    decreases toks.len() - p,
{
    lemma_skip_intraline_clean(toks, p);
    lemma_skip_intraline(toks, p);
    let i = skip_intraline(toks, p);
    let triv = tok_events(toks, p, i);
    if on_line(toks, i) {
        if toks[i].kind is WORD {
            lemma_pair_clean(b, toks, i);
            let (q, e) = kv_pair_events(b, toks, i);
            lemma_kv_pair_events(b, toks, i);
            lemma_kv_body_clean(b, toks, q);
            lemma_clean_concat(triv, e);
            lemma_clean_concat(triv + e, kv_body(b, toks, q).1);
        } else {
            lemma_kv_body_clean(b, toks, i + 1);
            lemma_clean_token(toks[i]);
            lemma_clean_concat(triv, seq![Event::Token(toks[i])]);
            lemma_clean_concat(triv + seq![Event::Token(toks[i])], kv_body(b, toks, i + 1).1);
        }
    }
}

proof fn lemma_wrap_line_clean(kind: SyntaxKind, toks: Seq<Token>, p: int)
    requires
        0 <= p <= toks.len(),
    ensures
        clean(wrap_line(kind, toks, p).1),
        line_ends_at(toks, wrap_line(kind, toks, p).0),
{
    lemma_line_stop(toks, p);
    lemma_clean_tok_events(toks, p, line_stop(toks, p));
    lemma_clean_wrapped(kind, tok_events(toks, p, line_stop(toks, p)));
}

proof fn lemma_from_body_clean(b: Seq<u8>, toks: Seq<Token>, p: int)
    requires
        0 <= p <= toks.len(),
    ensures
        clean(from_body(b, toks, p).1),
        line_ends_at(toks, from_body(b, toks, p).0),
{
    lemma_flags(b, toks, p);
    lemma_flags_clean(b, toks, p);
    let (p1, e1) = flags(b, toks, p);
    lemma_skip_intraline(toks, p1);
    lemma_skip_intraline_clean(toks, p1);
    let p2 = skip_intraline(toks, p1);
    let e2 = tok_events(toks, p1, p2);
    let (p3, e3) = if on_line(toks, p2) {
        (p2 + 1, wrapped(SyntaxKind::IMAGE_REF, seq![Event::Token(toks[p2])]))
    } else {
        (p2, Seq::empty())
    };
    if on_line(toks, p2) {
        lemma_clean_token(toks[p2]);
        lemma_clean_wrapped(SyntaxKind::IMAGE_REF, seq![Event::Token(toks[p2])]);
    }
    assert(clean(e3));
    lemma_skip_intraline(toks, p3);
    lemma_skip_intraline_clean(toks, p3);
    let p4 = skip_intraline(toks, p3);
    let e4 = tok_events(toks, p3, p4);
    let (p5, e5, d) = stage_clause(b, toks, p4);
    if word_at(toks, p4) {
        lemma_skip_intraline(toks, p4 + 1);
        lemma_skip_intraline_clean(toks, p4 + 1);
        let n = skip_intraline(toks, p4 + 1);
        let head = seq![Event::Token(toks[p4])] + tok_events(toks, p4 + 1, n);
        lemma_clean_token(toks[p4]);
        lemma_clean_concat(seq![Event::Token(toks[p4])], tok_events(toks, p4 + 1, n));
        if on_line(toks, n) {
            lemma_clean_token(toks[n]);
            lemma_clean_wrapped(SyntaxKind::STAGE_NAME, seq![Event::Token(toks[n])]);
            lemma_clean_concat(head, wrapped(SyntaxKind::STAGE_NAME, seq![Event::Token(toks[n])]));
        }
    }
    assert(clean(e5));
    assert(0 <= p5 <= toks.len());
    lemma_generic_body_clean(b, toks, p5);
    let e6 = generic_body(b, toks, p5).1;
    lemma_clean_concat(e1, e2);
    lemma_clean_concat(e1 + e2, e3);
    lemma_clean_concat(e1 + e2 + e3, e4);
    lemma_clean_concat(e1 + e2 + e3 + e4, e5);
    lemma_clean_concat(e1 + e2 + e3 + e4 + e5, e6);
}

proof fn lemma_arg_body_clean(b: Seq<u8>, toks: Seq<Token>, p: int)
    requires
        0 <= p <= toks.len(),
    ensures
        clean(arg_body(b, toks, p).1),
        line_ends_at(toks, arg_body(b, toks, p).0),
{
    lemma_skip_intraline(toks, p);
    lemma_skip_intraline_clean(toks, p);
    let i = skip_intraline(toks, p);
    let triv = tok_events(toks, p, i);
    let (q, e) = if word_at(toks, i) {
        kv_pair_events(b, toks, i)
    } else {
        (i, Seq::empty())
    };
    if word_at(toks, i) {
        lemma_pair_clean(b, toks, i);
        lemma_kv_pair_events(b, toks, i);
    }
    assert(clean(e));
    lemma_generic_body_clean(b, toks, q);
    lemma_clean_concat(triv, e);
    lemma_clean_concat(triv + e, generic_body(b, toks, q).1);
}

proof fn lemma_runlike_copy_clean(b: Seq<u8>, toks: Seq<Token>, p: int)
    requires
        0 <= p <= toks.len(),
    ensures
        clean(runlike_body(b, toks, p).1),
        line_ends_at(toks, runlike_body(b, toks, p).0),
        clean(copy_body(b, toks, p).1),
        line_ends_at(toks, copy_body(b, toks, p).0),
{
    lemma_flags(b, toks, p);
    lemma_flags_clean(b, toks, p);
    let (p1, e1) = flags(b, toks, p);
    lemma_skip_intraline(toks, p1);
    lemma_skip_intraline_clean(toks, p1);
    let p2 = skip_intraline(toks, p1);
    let e2 = tok_events(toks, p1, p2);
    lemma_clean_concat(e1, e2);
    lemma_wrap_line_clean(SyntaxKind::EXEC_FORM, toks, p2);
    lemma_wrap_line_clean(SyntaxKind::SHELL_FORM, toks, p2);
    lemma_clean_concat(e1 + e2, wrap_line(SyntaxKind::EXEC_FORM, toks, p2).1);
    lemma_clean_concat(e1 + e2, wrap_line(SyntaxKind::SHELL_FORM, toks, p2).1);
    lemma_generic_body_clean(b, toks, p2);
    lemma_clean_concat(e1 + e2, generic_body(b, toks, p2).1);
    assert(!exec_form_at(b, toks, p2) && !body_at(toks, p2) ==> line_ends_at(toks, p2));
}

proof fn lemma_body_clean(kind: SyntaxKind, b: Seq<u8>, toks: Seq<Token>, p: int)
    requires
        0 <= p <= toks.len(),
    ensures
        clean(body_events(kind, b, toks, p).1),
        line_ends_at(toks, body_events(kind, b, toks, p).0),
{
    lemma_from_body_clean(b, toks, p);
    lemma_kv_body_clean(b, toks, p);
    lemma_arg_body_clean(b, toks, p);
    lemma_runlike_copy_clean(b, toks, p);
    lemma_generic_body_clean(b, toks, p);
}

/// Trivia between instructions stays at the document level, and an
/// instruction's node holds its logical line only: each top-level item is
/// either one trivia token on its own, or one node — an instruction, or a
/// stray line — that holds no `NEWLINE` token and is followed by the
/// `NEWLINE` that ends its line, or by the end of the tokens.
pub proof fn lemma_top_item_placement(b: Seq<u8>, toks: Seq<Token>, p: int)
    requires
        0 <= p < toks.len(),
    ensures
        ({
            let (q, es, _) = top_item(b, toks, p);
            if toks[p].kind.trivia() {
                q == p + 1 && es == seq![Event::Token(toks[p])]
            } else {
                &&& exists|k: SyntaxKind, inner: Seq<Event>|
                    es == #[trigger] wrapped(k, inner) && clean(inner)
                &&& line_ends_at(toks, q)
                &&& p < q <= toks.len()
            }
        }),
{
    let t = toks[p];
    if !t.kind.trivia() {
        if t.kind is WORD {
            let (q, e, d) = instruction(b, toks, p);
            let kind = crate::grammar::instruction_kind(b, t);
            lemma_body_clean(kind, b, toks, p + 1);
            let body = body_events(kind, b, toks, p + 1).1;
            lemma_clean_token(t);
            lemma_clean_concat(seq![Event::Token(t)], body);
            crate::grammar::lemma_body_events(kind, b, toks, p + 1);
            assert(e == wrapped(kind, seq![Event::Token(t)] + body));
        } else {
            lemma_line_stop(toks, p);
            lemma_clean_tok_events(toks, p, line_stop(toks, p));
            assert(top_item(b, toks, p).1 == wrapped(SyntaxKind::INSTRUCTION, tok_events(toks, p, line_stop(toks, p))));
            lemma_wrap_line_clean(SyntaxKind::INSTRUCTION, toks, p);
        }
    }
}


/// The shape of the top level, read off a preorder from depth `d`: a leaf
/// at depth 0 is trivia, a leaf inside a node is no `NEWLINE`, and a node
/// that closes back to depth 0 is followed by a `NEWLINE` leaf, unless it
/// is the last.
pub open spec fn placed(tes: Seq<TreeEvent>, d: int) -> bool
    decreases tes.len(),
{
    if tes.len() == 0 {
        true
    } else {
        let rest = tes.drop_first();
        match tes[0] {
            TreeEvent::Leaf(k, _) => (if d == 0 {
                k.trivia()
            } else {
                !(k is NEWLINE)
            }) && placed(rest, d),
            TreeEvent::Open(_) => placed(rest, d + 1),
            TreeEvent::Close => (d == 1 && rest.len() > 0 ==> (rest[0] matches TreeEvent::Leaf(k, _)
                && k is NEWLINE)) && placed(rest, d - 1),
        }
    }
}

proof fn lemma_realize_concat(b: Seq<u8>, x: Seq<Event>, y: Seq<Event>)
    ensures
        realize_all(b, x + y) == realize_all(b, x) + realize_all(b, y),
{
    assert(realize_all(b, x + y) =~= realize_all(b, x) + realize_all(b, y));
}

/// Events that close what they open and hold no `NEWLINE`, inside a node.
proof fn lemma_placed_inside(b: Seq<u8>, x: Seq<Event>, r: int, r2: int, z: Seq<TreeEvent>)
    requires
        r >= 0,
        no_newline(x),
        ev_depth(x, r) == Some(r2),
        placed(z, r2 + 1),
    ensures
        placed(realize_all(b, x) + z, r + 1),
    decreases x.len(),
{
    let rx = realize_all(b, x);
    if x.len() == 0 {
        assert(rx + z =~= z);
    } else {
        let rest = x.drop_first();
        assert(no_newline(rest)) by {
            assert forall|i: int| 0 <= i < rest.len() implies !newline_event(#[trigger] rest[i]) by {
                assert(rest[i] == x[i + 1]);
            }
        }
        assert(!newline_event(x[0]));
        let r1 = match x[0] {
            Event::Start(_) => r + 1,
            Event::Finish => r - 1,
            Event::Token(_) => r,
        };
        lemma_placed_inside(b, rest, r1, r2, z);
        assert((rx + z).drop_first() =~= realize_all(b, rest) + z);
        assert((rx + z)[0] == realize(b, x[0]));
    }
}

/// A node that holds clean events, followed by a `NEWLINE` leaf or nothing.
proof fn lemma_placed_node(b: Seq<u8>, k: SyntaxKind, inner: Seq<Event>, w: Seq<TreeEvent>)
    requires
        clean(inner),
        placed(w, 0),
        w.len() > 0 ==> (w[0] matches TreeEvent::Leaf(kk, _) && kk is NEWLINE),
    ensures
        placed(realize_all(b, wrapped(k, inner)) + w, 0),
{
    let close = seq![TreeEvent::Close] + w;
    assert(close.drop_first() =~= w);
    reveal_with_fuel(placed, 2);
    assert(placed(close, 1));
    lemma_placed_inside(b, inner, 0, 0, close);
    let ri = realize_all(b, inner);
    assert(realize_all(b, wrapped(k, inner)) =~= seq![TreeEvent::Open(k)] + ri + seq![TreeEvent::Close]);
    let all = realize_all(b, wrapped(k, inner)) + w;
    assert(all[0] == TreeEvent::Open(k));
    assert(all.drop_first() =~= ri + close);
}

/// A trivia token at the top level.
proof fn lemma_placed_trivia(b: Seq<u8>, t: Token, w: Seq<TreeEvent>)
    requires
        t.kind.trivia(),
        placed(w, 0),
    ensures
        placed(realize_all(b, seq![Event::Token(t)]) + w, 0),
{
    let all = realize_all(b, seq![Event::Token(t)]) + w;
    assert(all[0] == realize(b, Event::Token(t)));
    assert(all.drop_first() =~= w);
}

/// The top-level items from `p` on are placed.
proof fn lemma_placed_top_level(b: Seq<u8>, toks: Seq<Token>, p: int)
    requires
        0 <= p <= toks.len(),
    ensures
        placed(realize_all(b, top_level(b, toks, p).0), 0),
        p < toks.len() && toks[p].kind is NEWLINE ==> (realize_all(b, top_level(b, toks, p).0)[0]
            matches TreeEvent::Leaf(k, _) && k is NEWLINE),
        p < toks.len() ==> realize_all(b, top_level(b, toks, p).0).len() > 0,
    decreases toks.len() - p,
{
    if p < toks.len() {
        lemma_top_item_placement(b, toks, p);
        crate::grammar::lemma_top_item(b, toks, p);
        let (q, e, _) = top_item(b, toks, p);
        lemma_placed_top_level(b, toks, q);
        let w = realize_all(b, top_level(b, toks, q).0);
        lemma_realize_concat(b, e, top_level(b, toks, q).0);
        assert(top_level(b, toks, p).0 == e + top_level(b, toks, q).0);
        if toks[p].kind.trivia() {
            lemma_placed_trivia(b, toks[p], w);
        } else {
            let (k, inner) = choose|k: SyntaxKind, inner: Seq<Event>|
                e == #[trigger] wrapped(k, inner) && clean(inner);
            if q < toks.len() {
                lemma_top_item_placement(b, toks, q);
                crate::grammar::lemma_top_item(b, toks, q);
                let q2 = top_item(b, toks, q).0;
                lemma_realize_concat(b, top_item(b, toks, q).1, top_level(b, toks, q2).0);
            }
            lemma_placed_node(b, k, inner, w);
        }
        assert(realize_all(b, e).len() > 0);
    }
}

/// The event is a `NEWLINE` leaf.
pub open spec fn newline_leaf(e: TreeEvent) -> bool {
    e matches TreeEvent::Leaf(k, _) && k is NEWLINE
}

/// No event of `tes` is a `NEWLINE` leaf.
pub open spec fn no_newline_leaf(tes: Seq<TreeEvent>) -> bool {
    forall|j: int| 0 <= j < tes.len() ==> !newline_leaf(#[trigger] tes[j])
}

/// The children of a document node are placed as its trivia rules ask:
/// every child token is trivia, no child node holds a `NEWLINE` token
/// anywhere below it, and every child node but the last is followed
/// directly by a `NEWLINE` token.
pub open spec fn children_placed(cs: Seq<SyntaxElement>) -> bool {
    forall|i: int| 0 <= i < cs.len() ==> #[trigger] child_placed(cs, i)
}

/// The child at `i` is placed as the trivia rules ask (see
/// [`children_placed`]).
pub open spec fn child_placed(cs: Seq<SyntaxElement>, i: int) -> bool {
    match cs[i] {
        SyntaxElement::Token(t) => t.kind.trivia(),
        SyntaxElement::Node(n) => no_newline_leaf(node_events(n)) && (i + 1 < cs.len() ==> (
        cs[i + 1] matches SyntaxElement::Token(t) && t.kind is NEWLINE)),
    }
}

proof fn lemma_no_newline_leaf_concat(x: Seq<TreeEvent>, y: Seq<TreeEvent>)
    requires
        no_newline_leaf(x),
        no_newline_leaf(y),
    ensures
        no_newline_leaf(x + y),
{
    assert forall|j: int| 0 <= j < (x + y).len() implies !newline_leaf(#[trigger] (x + y)[j]) by {
        if j < x.len() {
            assert((x + y)[j] == x[j]);
        } else {
            assert((x + y)[j] == y[j - x.len()]);
        }
    }
}

/// Inside a node, a placed preorder holds no `NEWLINE` leaf.
proof fn lemma_placed_children_inside(cs: Seq<SyntaxElement>, d: int, z: Seq<TreeEvent>)
    requires
        d >= 1,
        placed(elems_events(cs) + z, d),
    ensures
        no_newline_leaf(elems_events(cs)),
        placed(z, d),
    decreases cs,
{
    if cs.len() == 0 {
        assert(elems_events(cs) + z =~= z);
    } else {
        let rest = cs.drop_first();
        let er = elems_events(rest);
        assert(elems_events(cs) == elem_events(cs[0]) + er);
        match cs[0] {
            SyntaxElement::Token(t) => {
                let all = elems_events(cs) + z;
                assert(all[0] == TreeEvent::Leaf(t.kind, t.text@));
                assert(all.drop_first() =~= er + z);
                lemma_placed_children_inside(rest, d, z);
                lemma_no_newline_leaf_concat(seq![TreeEvent::Leaf(t.kind, t.text@)], er);
            },
            SyntaxElement::Node(n) => {
                let en = elems_events(n.children@);
                let tail = seq![TreeEvent::Close] + er + z;
                let all = elems_events(cs) + z;
                assert(all[0] == TreeEvent::Open(n.kind));
                assert(all.drop_first() =~= en + tail);
                assert(decreases_to!(cs => cs[0]));
                lemma_placed_children_inside(n.children@, d + 1, tail);
                assert(tail[0] == TreeEvent::Close);
                assert(tail.drop_first() =~= er + z);
                lemma_placed_children_inside(rest, d, z);
                let on = seq![TreeEvent::Open(n.kind)];
                let cl = seq![TreeEvent::Close];
                lemma_no_newline_leaf_concat(on, en);
                lemma_no_newline_leaf_concat(on + en, cl);
                lemma_no_newline_leaf_concat(on + en + cl, er);
                assert(elems_events(cs) =~= on + en + cl + er);
            },
        }
    }
}

/// A placed preorder of the document's children gives children placed as
/// the trivia rules ask.
proof fn lemma_children_placed(cs: Seq<SyntaxElement>)
    requires
        placed(elems_events(cs), 0),
    ensures
        children_placed(cs),
    decreases cs.len(),
{
    if cs.len() > 0 {
        let rest = cs.drop_first();
        let er = elems_events(rest);
        let all = elems_events(cs);
        assert(all == elem_events(cs[0]) + er);
        match cs[0] {
            SyntaxElement::Token(t) => {
                assert(all[0] == TreeEvent::Leaf(t.kind, t.text@));
                assert(all.drop_first() =~= er);
            },
            SyntaxElement::Node(n) => {
                let en = elems_events(n.children@);
                let tail = seq![TreeEvent::Close] + er;
                assert(all[0] == TreeEvent::Open(n.kind));
                assert(all.drop_first() =~= en + tail);
                lemma_placed_children_inside(n.children@, 1, tail);
                assert(tail[0] == TreeEvent::Close);
                assert(tail.drop_first() =~= er);
                let on = seq![TreeEvent::Open(n.kind)];
                let cl = seq![TreeEvent::Close];
                lemma_no_newline_leaf_concat(on, en);
                lemma_no_newline_leaf_concat(on + en, cl);
                assert(node_events(n) =~= on + en + cl);
                if rest.len() > 0 {
                    assert(er == elem_events(rest[0]) + elems_events(rest.drop_first()));
                    match rest[0] {
                        SyntaxElement::Token(t2) => {},
                        SyntaxElement::Node(n2) => {
                            assert(er[0] == TreeEvent::Open(n2.kind));
                        },
                    }
                }
            },
        }
        lemma_children_placed(rest);
        assert forall|i: int| 0 <= i < cs.len() implies #[trigger] child_placed(cs, i) by {
            if i > 0 {
                assert(cs[i] == rest[i - 1]);
                assert(child_placed(rest, i - 1));
                if i + 1 < cs.len() {
                    assert(cs[i + 1] == rest[i]);
                }
            } else if cs.len() > 1 {
                assert(cs[1] == rest[0]);
            }
        }
    }
}

/// The tokens of `b` lexed from its start with the escape byte `esc`, which
/// is `\\` or `` ` ``.
pub open spec fn lexed(b: Seq<u8>, toks: Seq<Token>, esc: u8) -> bool {
    &&& b.len() <= u32::MAX
    &&& (esc == 92 || esc == 96)
    &&& toks == lex_from(b, 0, esc, true)
}

proof fn lemma_line_end_skip(b: Seq<u8>, x: int, y: int)
    requires
        0 <= x <= y <= b.len(),
        forall|m: int| x <= m < y ==> !is_newline_byte(#[trigger] b[m]),
    ensures
        line_end(b, x) == line_end(b, y),
    decreases y - x,
{
    if x < y {
        lemma_line_end_skip(b, x + 1, y);
    }
}

/// One token of the lexed bytes: the lexer step at its start, and where the
/// next token starts.
proof fn lemma_tok_step(b: Seq<u8>, toks: Seq<Token>, esc: u8, a: int)
    requires
        lexed(b, toks, esc),
        0 <= a < toks.len(),
    ensures
        0 <= toks[a].range.start < b.len(),
        scan(b, toks[a].range.start as int, esc, starts_logical_line(toks, a, true)) == (
            toks[a].kind,
            toks[a].range.end as int,
            starts_logical_line(toks, a + 1, true),
        ),
        a + 1 < toks.len() ==> toks[a].range.end == toks[a + 1].range.start,
        a + 1 == toks.len() ==> toks[a].range.end == b.len(),
        a == 0 ==> toks[a].range.start == 0,
{
    lemma_lex_tiles(b, 0, esc, true);
    lemma_lex_steps(b, 0, esc, true);
    assert(toks[a] == lex_from(b, 0, esc, true)[a]);
    if a + 1 == toks.len() {
        assert(toks.last() == toks[a]);
    }
}

/// From a token at byte `x`, with only blanks and newlines up to a `#` at
/// `c` that starts a logical line, looking for the directive comment at `c`
/// passes over trivia tokens only and finds the comment.
proof fn lemma_seek_finds(b: Seq<u8>, toks: Seq<Token>, esc: u8, a: int, x: int, c: int)
    requires
        lexed(b, toks, esc),
        0 <= a < toks.len(),
        toks[a].range.start == x,
        x <= c < b.len(),
        b[c] == 35,
        forall|m: int| x <= m < c ==> is_blank_byte(#[trigger] b[m]) || is_newline_byte(b[m]),
        starts_logical_line(toks, a, true) || line_end(b, x) < c,
    ensures
        ({
            let r = TextRange { start: c as u32, end: line_end(b, c) as u32 };
            let (q, es, o) = seek_directive(toks, a, r);
            &&& o == 0
            &&& a < q <= toks.len()
            &&& es == tok_events(toks, a, q - 1) + wrapped(
                SyntaxKind::PARSER_DIRECTIVE,
                seq![Event::Token(toks[q - 1])],
            )
            &&& toks[q - 1].kind is COMMENT
            &&& forall|m: int| a <= m < q - 1 ==> (#[trigger] toks[m]).kind.trivia()
            &&& q < toks.len() ==> toks[q].range.start == line_end(b, c)
            &&& q == toks.len() ==> line_end(b, c) == b.len()
        }),
    decreases c - x,
{
    lemma_tok_step(b, toks, esc, a);
    lemma_line_end(b, c);
    let r = TextRange { start: c as u32, end: line_end(b, c) as u32 };
    let t = toks[a];
    let st = starts_logical_line(toks, a, true);
    assert(!continuation_at(b, x, esc));
    let end = t.range.end as int;
    if x == c {
        assert(st);
        assert(t.kind is COMMENT);
        assert(t.range == r);
        assert(tok_events(toks, a, a) =~= Seq::<Event>::empty());
        assert(seek_directive(toks, a, r).1 =~= tok_events(toks, a, a) + wrapped(
            SyntaxKind::PARSER_DIRECTIVE,
            seq![Event::Token(toks[a])],
        ));
    } else {
        if is_blank_byte(b[x]) {
            lemma_blanks_end(b, x);
            lemma_blanks_end(b, x + 1);
            assert(end == blanks_end(b, x));
            assert(blanks_end(b, x) == blanks_end(b, x + 1));
            assert(end > x);
            if end > c {
                assert(is_blank_byte(b[c]));
            }
            assert forall|m: int| x <= m < end implies !is_newline_byte(#[trigger] b[m]) by {
                assert(is_blank_byte(b[m]));
            }
            lemma_line_end_skip(b, x, end);
        } else {
            assert(is_newline_byte(b[x]));
            assert(end == newline_end(b, x));
            assert(end > x);
            if b[x] == 13 && x + 1 < b.len() && b[x + 1] == 10 {
                assert(x + 1 != c);
            }
        }
        assert(x < end <= c);
        lemma_seek_finds(b, toks, esc, a + 1, end, c);
        let (q, es, o) = seek_directive(toks, a + 1, r);
        assert(seq![Event::Token(toks[a])] + tok_events(toks, a + 1, q - 1) =~= tok_events(toks, a, q - 1));
        assert(seek_directive(toks, a, r).1 =~= tok_events(toks, a, q - 1) + wrapped(
            SyntaxKind::PARSER_DIRECTIVE,
            seq![Event::Token(toks[q - 1])],
        ));
    }
}

/// A run of trivia tokens at the top level.
proof fn lemma_placed_trivia_run(b: Seq<u8>, toks: Seq<Token>, a: int, m: int, w: Seq<TreeEvent>)
    requires
        0 <= a <= m <= toks.len(),
        forall|j: int| a <= j < m ==> (#[trigger] toks[j]).kind.trivia(),
        placed(w, 0),
    ensures
        placed(realize_all(b, tok_events(toks, a, m)) + w, 0),
    decreases m - a,
{
    if a < m {
        lemma_placed_trivia_run(b, toks, a + 1, m, w);
        lemma_placed_trivia(b, toks[a], realize_all(b, tok_events(toks, a + 1, m)) + w);
        assert(tok_events(toks, a, m) =~= seq![Event::Token(toks[a])] + tok_events(toks, a + 1, m));
        lemma_realize_concat(b, seq![Event::Token(toks[a])], tok_events(toks, a + 1, m));
        assert(realize_all(b, tok_events(toks, a, m)) + w =~= realize_all(b, seq![Event::Token(toks[a])])
            + (realize_all(b, tok_events(toks, a + 1, m)) + w));
    } else {
        assert(realize_all(b, tok_events(toks, a, m)) + w =~= w);
    }
}

/// What the lexed bytes hold about the directive at `i`: its `#` at
/// `ds[i].2`, its text up to the line end `ds[i].3`, and its line.
proof fn lemma_directive_facts(b: Seq<u8>, i: int)
    requires
        0 <= i < directives_from(b, 0).len(),
    ensures
        ({
            let ds = directives_from(b, 0);
            &&& 0 <= ds[i].2 < b.len()
            &&& b[ds[i].2] == 35
            &&& ds[i].3 == line_end(b, ds[i].2)
            &&& directive_lines(b)[i] == TextRange { start: ds[i].2 as u32, end: ds[i].3 as u32 }
            &&& i + 1 < ds.len() ==> {
                &&& ds[i].3 < b.len()
                &&& ds[i + 1].2 == blanks_end(b, newline_end(b, ds[i].3))
            }
        }),
{
    let ds = directives_from(b, 0);
    lemma_directives_contiguous(b, 0);
    lemma_directives_in_bounds(b, 0);
    assert(b[ds[i].2] == 35 && directive_at(b, ds[i].2) == Some((ds[i].0, ds[i].1, ds[i].3)));
    assert(blanks_end(b, ds[i].2) == ds[i].2);
    if i + 1 < ds.len() {
        assert(ds[i + 1].2 == blanks_end(b, newline_end(b, ds[i].3)));
        assert(b[ds[i + 1].2] == 35);
        assert(0 <= ds[i + 1].2 <= ds[i + 1].3 <= b.len());
        if ds[i].3 == b.len() {
            assert(newline_end(b, ds[i].3) == b.len());
            assert(blanks_end(b, b.len() as int) == b.len());
        }
    }
}

/// The directive block, from the directive at `i` on, followed by the
/// top-level items after it, is placed.
proof fn lemma_block_placed(b: Seq<u8>, toks: Seq<Token>, esc: u8, i: int, a: int, x: int)
    requires
        lexed(b, toks, esc),
        0 <= i < directive_lines(b).len(),
        0 <= a < toks.len(),
        toks[a].range.start == x,
        x <= directives_from(b, 0)[i].2,
        forall|m: int|
            x <= m < directives_from(b, 0)[i].2 ==> is_blank_byte(#[trigger] b[m])
                || is_newline_byte(b[m]),
        starts_logical_line(toks, a, true) || line_end(b, x) < directives_from(b, 0)[i].2,
    ensures
        ({
            let (q, d) = directive_block(toks, a, directive_lines(b), i);
            &&& 0 <= q <= toks.len()
            &&& placed(realize_all(b, d) + realize_all(b, top_level(b, toks, q).0), 0)
            &&& realize_all(b, d).len() > 0
            &&& toks[a].kind is NEWLINE ==> newline_leaf(realize_all(b, d)[0])
        }),
    decreases directive_lines(b).len() - i,
{
    let ds = directives_from(b, 0);
    let rs = directive_lines(b);
    lemma_directive_facts(b, i);
    let c = ds[i].2;
    lemma_seek_finds(b, toks, esc, a, x, c);
    let (q1, es1, o1) = seek_directive(toks, a, rs[i]);
    let cm = toks[q1 - 1];
    let node = wrapped(SyntaxKind::PARSER_DIRECTIVE, seq![Event::Token(cm)]);
    lemma_clean_token(cm);
    lemma_realize_concat(b, tok_events(toks, a, q1 - 1), node);
    if q1 - 1 > a {
        assert(tok_events(toks, a, q1 - 1)[0] == Event::Token(toks[a]));
    } else {
        assert(tok_events(toks, a, q1 - 1) =~= Seq::<Event>::empty());
        assert(toks[a] == cm);
    }
    lemma_line_end(b, c);
    if i == rs.len() - 1 {
        let z = realize_all(b, top_level(b, toks, q1).0);
        lemma_placed_top_level(b, toks, q1);
        if q1 < toks.len() {
            lemma_tok_step(b, toks, esc, q1);
            assert(is_newline_byte(b[ds[i].3]));
            assert(!continuation_at(b, ds[i].3, esc));
            assert(toks[q1].kind is NEWLINE);
        }
        lemma_placed_node(b, SyntaxKind::PARSER_DIRECTIVE, seq![Event::Token(cm)], z);
        lemma_placed_trivia_run(b, toks, a, q1 - 1, realize_all(b, node) + z);
        assert(realize_all(b, es1) + z =~= realize_all(b, tok_events(toks, a, q1 - 1)) + (
        realize_all(b, node) + z));
    } else {
        lemma_directive_facts(b, i + 1);
        let le = ds[i].3;
        assert(q1 < toks.len());
        let ne = newline_end(b, le);
        lemma_blanks_end(b, ne);
        assert forall|m: int| le <= m < ds[i + 1].2 implies is_blank_byte(#[trigger] b[m])
            || is_newline_byte(b[m]) by {
            if m >= ne {
                assert(is_blank_byte(b[m]));
            }
        }
        lemma_block_placed(b, toks, esc, i + 1, q1, le);
        let (r, rest) = directive_block(toks, q1, rs, i + 1);
        assert(directive_block(toks, a, rs, i) == (r, es1 + rest));
        lemma_tok_step(b, toks, esc, q1);
        assert(!continuation_at(b, le, esc));
        assert(toks[q1].kind is NEWLINE);
        let z = realize_all(b, top_level(b, toks, r).0);
        let w = realize_all(b, rest) + z;
        assert(w[0] == realize_all(b, rest)[0]);
        lemma_placed_node(b, SyntaxKind::PARSER_DIRECTIVE, seq![Event::Token(cm)], w);
        lemma_placed_trivia_run(b, toks, a, q1 - 1, realize_all(b, node) + w);
        lemma_realize_concat(b, es1, rest);
        assert(realize_all(b, es1 + rest) + z =~= realize_all(b, tok_events(toks, a, q1 - 1)) + (
        realize_all(b, node) + w));
    }
}

/// The preorder of the whole file inside its `DOCKERFILE` node is placed.
proof fn lemma_file_placed(b: Seq<u8>)
    requires
        b.len() <= u32::MAX,
    ensures
        ({
            let es = parse_events(b).0;
            &&& es.len() >= 2
            &&& placed(realize_all(b, es.subrange(1, es.len() - 1)), 0)
        }),
{
    let ds = directives_from(b, 0);
    lemma_escape_of(ds);
    let esc = escape_byte(crate::directive::escape_of(ds));
    assert(esc == 92 || esc == 96);
    let toks = file_tokens(b);
    let rs = directive_lines(b);
    assert(lexed(b, toks, esc));
    let (p0, d) = directive_block(toks, 0, rs, 0);
    let top = top_level(b, toks, p0).0;
    let es = parse_events(b).0;
    assert(es == wrapped(SyntaxKind::DOCKERFILE, d + top));
    assert(es.subrange(1, es.len() - 1) =~= d + top);
    lemma_realize_concat(b, d, top);
    assert(rs.len() == ds.len());
    if rs.len() == 0 {
        assert(d =~= Seq::<Event>::empty());
        lemma_placed_top_level(b, toks, 0);
        assert(realize_all(b, d) + realize_all(b, top) =~= realize_all(b, top));
    } else {
        lemma_directive_facts(b, 0);
        lemma_directives_contiguous(b, 0);
        lemma_lex_tiles(b, 0, esc, true);
        assert(toks.len() > 0);
        lemma_tok_step(b, toks, esc, 0);
        lemma_blanks_end(b, 0);
        assert forall|m: int| 0 <= m < ds[0].2 implies is_blank_byte(#[trigger] b[m])
            || is_newline_byte(b[m]) by {}
        assert(starts_logical_line(toks, 0, true));
        lemma_block_placed(b, toks, esc, 0, 0, 0);
    }
}

/// Trivia handling of the syntax tree: trivia between instructions stays at
/// the document level and an instruction's terminating newline is not part
/// of its node. Of a tree whose preorder is that of a parse of `b`, every
/// child token of the root is trivia, no child node holds a `NEWLINE` token
/// anywhere below it, and every child node but the last is followed
/// directly by a `NEWLINE` token.
pub proof fn lemma_tree_placement(b: Seq<u8>, root: SyntaxNode)
    requires
        b.len() <= u32::MAX,
        node_events(root) == realize_all(b, parse_events(b).0),
    ensures
        children_placed(root.children@),
{
    lemma_file_placed(b);
    let es = parse_events(b).0;
    let all = realize_all(b, es);
    assert(node_events(root) == seq![TreeEvent::Open(root.kind)] + elems_events(root.children@) + seq![TreeEvent::Close]);
    assert(elems_events(root.children@) =~= node_events(root).subrange(1, node_events(root).len() - 1));
    assert(realize_all(b, es.subrange(1, es.len() - 1)) =~= all.subrange(1, all.len() - 1));
    lemma_children_placed(root.children@);
}

} // verus!
