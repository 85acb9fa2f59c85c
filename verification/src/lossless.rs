//! Why the tree is lossless: the tokens that the parser emits cover the
//! source exactly, in order, and every node it opens it closes.
//!
//! [`seg`] runs through a list of events keeping the depth of open nodes and
//! the offset up to which the source has been covered; it fails when a token
//! does not start where the previous one ended, when a token sits outside
//! every node, or when a node is closed that was not opened. Each parsing
//! routine's events pass through it from the start of the first token it
//! consumes to the start of the first token it leaves.

use vstd::prelude::*;
use vstd::utf8::*;

use crate::grammar::{
    arg_body, body_events, byte_index, lemma_directive_block, copy_body, directive_block, file_events, flag_at,
    flag_events, flags, from_body, generic_body, instruction, instruction_kind, kv_body,
    kv_pair_events, lemma_body_events, lemma_byte_index, lemma_flag_events, lemma_flags,
    lemma_generic_body, lemma_kv_body, lemma_kv_pair_events, lemma_line_stop,
    lemma_seek_directive, lemma_skip_intraline, lemma_top_item,
    line_stop, on_line, runlike_body, seek_directive, skip_intraline,
    split_events, split_pair, stage_clause, tok_bytes, tok_events, top_item, top_level, word_at,
    wrap_line, wrapped, Event,
};
use crate::kind::SyntaxKind;
use crate::lexer::{tiles, token_at, Token};
use crate::text_range::TextRange;
use crate::utf8_text::{ascii_cut, lemma_ascii_cut_is_boundary};

verus! {

/// Runs through `es` from depth `d` and source offset `pos`: `Start` opens a
/// node, `Finish` closes one (the outermost node, at depth 1, stays open:
/// it is closed by the caller), a token must lie
/// inside a node, start at `pos`, end at a character boundary of `b`, and
/// moves `pos` to its end. The final depth and offset, or `None`.
pub open spec fn seg(b: Seq<u8>, es: Seq<Event>, d: int, pos: int) -> Option<(int, int)>
    decreases es.len(),
{
    if es.len() == 0 {
        Some((d, pos))
    } else {
        match es[0] {
            Event::Start(_) => seg(b, es.drop_first(), d + 1, pos),
            Event::Finish => if d >= 2 {
                seg(b, es.drop_first(), d - 1, pos)
            } else {
                None
            },
            Event::Token(t) => if d >= 1 && t.range.start == pos && pos <= t.range.end <= b.len()
                && is_char_boundary(b, t.range.end as int) {
                seg(b, es.drop_first(), d, t.range.end as int)
            } else {
                None
            },
        }
    }
}

/// The tokens of the source bytes `b`: valid UTF-8 of at most `u32::MAX`
/// bytes, tokens within it, cutting it at character boundaries, covering it
/// exactly.
pub open spec fn source_ok(b: Seq<u8>, toks: Seq<Token>) -> bool {
    &&& valid_utf8(b)
    &&& b.len() <= u32::MAX
    &&& forall|i: int|
        0 <= i < toks.len() ==> {
            let t = #[trigger] toks[i];
            &&& is_char_boundary(b, t.range.start as int)
            &&& is_char_boundary(b, t.range.end as int)
            &&& t.range.start <= t.range.end <= b.len()
        }
    &&& tiles(toks, 0, b.len() as int)
}

/// The source offset where the token at position `i` starts (the end of the
/// source past the last token).
pub open spec fn tpos(b: Seq<u8>, toks: Seq<Token>, i: int) -> int {
    if 0 <= i < toks.len() {
        toks[i].range.start as int
    } else {
        b.len() as int
    }
}

/// A routine that goes from position `p` to `q` emitting `es` covers the
/// source from the start of token `p` to the start of token `q`, from any
/// depth `d >= 1`.
pub open spec fn covers(b: Seq<u8>, toks: Seq<Token>, es: Seq<Event>, p: int, q: int) -> bool {
    forall|d: int| d >= 1 ==> #[trigger] seg(b, es, d, tpos(b, toks, p)) == Some((d, tpos(b, toks, q)))
}

pub proof fn lemma_seg_concat(b: Seq<u8>, x: Seq<Event>, y: Seq<Event>, d: int, pos: int)
    ensures
        seg(b, x + y, d, pos) == match seg(b, x, d, pos) {
            Some((d2, m)) => seg(b, y, d2, m),
            None => None,
        },
    decreases x.len(),
{
    if x.len() == 0 {
        assert(x + y =~= y);
    } else {
        assert((x + y).drop_first() =~= x.drop_first() + y);
        assert((x + y)[0] == x[0]);
        match x[0] {
            Event::Start(_) => lemma_seg_concat(b, x.drop_first(), y, d + 1, pos),
            Event::Finish => {
                if d >= 2 {
                    lemma_seg_concat(b, x.drop_first(), y, d - 1, pos);
                }
            },
            Event::Token(t) => {
                if d >= 1 && t.range.start == pos && pos <= t.range.end <= b.len()
                    && is_char_boundary(b, t.range.end as int) {
                    lemma_seg_concat(b, x.drop_first(), y, d, t.range.end as int);
                }
            },
        }
    }
}

/// Where a token ends, the next one starts.
pub proof fn lemma_token_step(b: Seq<u8>, toks: Seq<Token>, i: int)
    requires
        source_ok(b, toks),
        0 <= i < toks.len(),
    ensures
        toks[i].range.start == tpos(b, toks, i),
        toks[i].range.end == tpos(b, toks, i + 1),
        is_char_boundary(b, toks[i].range.end as int),
        toks[i].range.start <= toks[i].range.end <= b.len(),
{
    let t = toks[i];
    assert(is_char_boundary(b, t.range.end as int));
    if i + 1 < toks.len() {
        assert(toks[i].range.end == toks[i + 1].range.start);
    } else {
        assert(toks.last() == toks[i]);
    }
}

pub proof fn lemma_covers_concat(b: Seq<u8>, toks: Seq<Token>, x: Seq<Event>, y: Seq<Event>, p: int, q: int, r: int)
    requires
        covers(b, toks, x, p, q),
        covers(b, toks, y, q, r),
    ensures
        covers(b, toks, x + y, p, r),
{
    assert forall|d: int| d >= 1 implies #[trigger] seg(b, x + y, d, tpos(b, toks, p)) == Some(
        (d, tpos(b, toks, r)),
    ) by {
        lemma_seg_concat(b, x, y, d, tpos(b, toks, p));
        assert(seg(b, x, d, tpos(b, toks, p)) == Some((d, tpos(b, toks, q))));
        assert(seg(b, y, d, tpos(b, toks, q)) == Some((d, tpos(b, toks, r))));
    }
}

pub proof fn lemma_covers_empty(b: Seq<u8>, toks: Seq<Token>, p: int)
    ensures
        covers(b, toks, Seq::empty(), p, p),
{
}

pub proof fn lemma_covers_wrapped(b: Seq<u8>, toks: Seq<Token>, k: SyntaxKind, x: Seq<Event>, p: int, q: int)
    requires
        covers(b, toks, x, p, q),
    ensures
        covers(b, toks, wrapped(k, x), p, q),
{
    assert forall|d: int| d >= 1 implies #[trigger] seg(b, wrapped(k, x), d, tpos(b, toks, p)) == Some(
        (d, tpos(b, toks, q)),
    ) by {
        reveal_with_fuel(seg, 2);
        let a = tpos(b, toks, p);
        lemma_seg_concat(b, seq![Event::Start(k)] + x, seq![Event::Finish], d, a);
        lemma_seg_concat(b, seq![Event::Start(k)], x, d, a);
        assert(seq![Event::Start(k)].drop_first() =~= Seq::<Event>::empty());
        assert(seg(b, x, d + 1, a) == Some((d + 1, tpos(b, toks, q))));
        assert(seq![Event::Finish].drop_first() =~= Seq::<Event>::empty());
    }
}

pub proof fn lemma_covers_tok_events(b: Seq<u8>, toks: Seq<Token>, p: int, q: int)
    requires
        source_ok(b, toks),
        0 <= p <= q <= toks.len(),
    ensures
        covers(b, toks, tok_events(toks, p, q), p, q),
    decreases q - p,
{
    if p == q {
        assert(tok_events(toks, p, q) =~= Seq::<Event>::empty());
    } else {
        lemma_covers_tok_events(b, toks, p + 1, q);
        lemma_token_step(b, toks, p);
        let one = seq![Event::Token(toks[p])];
        assert forall|d: int| d >= 1 implies #[trigger] seg(b, one, d, tpos(b, toks, p)) == Some(
            (d, tpos(b, toks, p + 1)),
        ) by {
            reveal_with_fuel(seg, 2);
            assert(one.drop_first() =~= Seq::<Event>::empty());
        }
        lemma_covers_concat(b, toks, one, tok_events(toks, p + 1, q), p, p + 1, q);
        assert(one + tok_events(toks, p + 1, q) =~= tok_events(toks, p, q));
    }
}

pub proof fn lemma_covers_one(b: Seq<u8>, toks: Seq<Token>, p: int)
    requires
        source_ok(b, toks),
        0 <= p < toks.len(),
    ensures
        covers(b, toks, seq![Event::Token(toks[p])], p, p + 1),
{
    lemma_covers_tok_events(b, toks, p, p + 1);
    assert(tok_events(toks, p, p + 1) =~= seq![Event::Token(toks[p])]);
}

/// Splitting a `WORD` at its first `=` keeps the cover.
pub proof fn lemma_covers_split_pair(b: Seq<u8>, toks: Seq<Token>, p: int, k: int)
    requires
        source_ok(b, toks),
        0 <= p < toks.len(),
        byte_index(tok_bytes(b, toks[p]), 61, 0) == Some(k),
    ensures
        covers(b, toks, split_pair(toks, p, k).1, p, split_pair(toks, p, k).0),
{
    let t = toks[p];
    lemma_token_step(b, toks, p);
    lemma_byte_index(tok_bytes(b, t), 61, 0);
    let s = t.range.start as int;
    let e = t.range.end as int;
    assert(b[s + k] == 61);
    assert(ascii_cut(b, s + k));
    lemma_ascii_cut_is_boundary(b, s + k);
    assert(ascii_cut(b, s + k + 1));
    lemma_ascii_cut_is_boundary(b, s + k + 1);
    let es = split_events(t, k);
    assert forall|d: int| d >= 1 implies #[trigger] seg(b, es, d, tpos(b, toks, p)) == Some(
        (d, tpos(b, toks, p + 1)),
    ) by {
        reveal_with_fuel(seg, 3);
        let e0 = Event::Token(token_at(SyntaxKind::WORD, s, s + k));
        let e1 = Event::Token(token_at(SyntaxKind::EQUALS, s + k, s + k + 1));
        let tail: Seq<Event> = if s + k + 1 < e {
            seq![Event::Token(token_at(SyntaxKind::WORD, s + k + 1, e))]
        } else {
            Seq::empty()
        };
        assert(es == seq![e0, e1] + tail);
        lemma_seg_concat(b, seq![e0, e1], tail, d, s);
        assert(seq![e0, e1].drop_first() =~= seq![e1]);
        assert(seq![e1].drop_first() =~= Seq::<Event>::empty());
        assert(seg(b, seq![e0, e1], d, s) == Some((d, s + k + 1)));
        if s + k + 1 < e {
            assert(tail.drop_first() =~= Seq::<Event>::empty());
        }
    }
    if p + 1 < toks.len() && toks[p + 1].kind is STRING && k == e - s - 1 {
        lemma_covers_one(b, toks, p + 1);
        lemma_covers_concat(b, toks, es, seq![Event::Token(toks[p + 1])], p, p + 1, p + 2);
    }
}

pub proof fn lemma_covers_flag(b: Seq<u8>, toks: Seq<Token>, p: int)
    requires
        source_ok(b, toks),
        0 <= p < toks.len(),
    ensures
        covers(b, toks, flag_events(b, toks, p).1, p, flag_events(b, toks, p).0),
{
    match byte_index(tok_bytes(b, toks[p]), 61, 0) {
        Some(k) => {
            lemma_covers_split_pair(b, toks, p, k);
            let (q, es) = split_pair(toks, p, k);
            lemma_covers_wrapped(b, toks, SyntaxKind::FLAG, es, p, q);
        },
        None => {
            lemma_covers_one(b, toks, p);
            lemma_covers_wrapped(b, toks, SyntaxKind::FLAG, seq![Event::Token(toks[p])], p, p + 1);
        },
    }
}

pub proof fn lemma_covers_kv_pair(b: Seq<u8>, toks: Seq<Token>, p: int)
    requires
        source_ok(b, toks),
        0 <= p < toks.len(),
    ensures
        covers(b, toks, kv_pair_events(b, toks, p).1, p, kv_pair_events(b, toks, p).0),
{
    match byte_index(tok_bytes(b, toks[p]), 61, 0) {
        Some(k) => {
            lemma_covers_split_pair(b, toks, p, k);
            let (q, es) = split_pair(toks, p, k);
            lemma_covers_wrapped(b, toks, SyntaxKind::KEY_VALUE, es, p, q);
        },
        None => {
            lemma_line_stop(toks, p + 1);
            let q = line_stop(toks, p + 1);
            lemma_covers_tok_events(b, toks, p, q);
            lemma_covers_wrapped(b, toks, SyntaxKind::KEY_VALUE, tok_events(toks, p, q), p, q);
        },
    }
}

pub proof fn lemma_covers_wrap_line(b: Seq<u8>, toks: Seq<Token>, k: SyntaxKind, p: int)
    requires
        source_ok(b, toks),
        0 <= p <= toks.len(),
    ensures
        covers(b, toks, wrap_line(k, toks, p).1, p, wrap_line(k, toks, p).0),
{
    lemma_line_stop(toks, p);
    let q = line_stop(toks, p);
    lemma_covers_tok_events(b, toks, p, q);
    lemma_covers_wrapped(b, toks, k, tok_events(toks, p, q), p, q);
}

pub proof fn lemma_covers_generic_body(b: Seq<u8>, toks: Seq<Token>, p: int)
    requires
        source_ok(b, toks),
        0 <= p <= toks.len(),
    ensures
        covers(b, toks, generic_body(b, toks, p).1, p, generic_body(b, toks, p).0),
    decreases toks.len() - p,
{
    if !on_line(toks, p) {
        lemma_covers_empty(b, toks, p);
    } else if flag_at(b, toks, p) {
        lemma_flag_events(b, toks, p);
        lemma_covers_flag(b, toks, p);
        let (q, f) = flag_events(b, toks, p);
        lemma_covers_generic_body(b, toks, q);
        let (r, rest) = generic_body(b, toks, q);
        lemma_covers_concat(b, toks, f, rest, p, q, r);
    } else {
        lemma_covers_one(b, toks, p);
        lemma_covers_generic_body(b, toks, p + 1);
        let (r, rest) = generic_body(b, toks, p + 1);
        lemma_covers_concat(b, toks, seq![Event::Token(toks[p])], rest, p, p + 1, r);
    }
}

pub proof fn lemma_covers_flags(b: Seq<u8>, toks: Seq<Token>, p: int)
    requires
        source_ok(b, toks),
        0 <= p <= toks.len(),
    ensures
        covers(b, toks, flags(b, toks, p).1, p, flags(b, toks, p).0),
    decreases toks.len() - p,
{
    lemma_skip_intraline(toks, p);
    let i = skip_intraline(toks, p);
    lemma_covers_tok_events(b, toks, p, i);
    if flag_at(b, toks, i) {
        lemma_flag_events(b, toks, i);
        lemma_covers_flag(b, toks, i);
        let (q, f) = flag_events(b, toks, i);
        lemma_covers_flags(b, toks, q);
        let (r, rest) = flags(b, toks, q);
        lemma_covers_concat(b, toks, tok_events(toks, p, i), f, p, i, q);
        lemma_covers_concat(b, toks, tok_events(toks, p, i) + f, rest, p, q, r);
    }
}

pub proof fn lemma_covers_stage_clause(b: Seq<u8>, toks: Seq<Token>, p: int)
    requires
        source_ok(b, toks),
        0 <= p <= toks.len(),
    ensures
        covers(b, toks, stage_clause(b, toks, p).1, p, stage_clause(b, toks, p).0),
{
    if word_at(toks, p) && crate::grammar::as_word(tok_bytes(b, toks[p])) {
        lemma_skip_intraline(toks, p + 1);
        let n = skip_intraline(toks, p + 1);
        lemma_covers_one(b, toks, p);
        lemma_covers_tok_events(b, toks, p + 1, n);
        let head = seq![Event::Token(toks[p])] + tok_events(toks, p + 1, n);
        lemma_covers_concat(b, toks, seq![Event::Token(toks[p])], tok_events(toks, p + 1, n), p, p + 1, n);
        if on_line(toks, n) {
            lemma_covers_one(b, toks, n);
            lemma_covers_wrapped(b, toks, SyntaxKind::STAGE_NAME, seq![Event::Token(toks[n])], n, n + 1);
            lemma_covers_concat(b, toks, head, crate::grammar::wrapped(SyntaxKind::STAGE_NAME, seq![Event::Token(toks[n])]), p, n, n + 1);
        }
    } else {
        lemma_covers_empty(b, toks, p);
    }
}

pub proof fn lemma_covers_from_body(b: Seq<u8>, toks: Seq<Token>, p: int)
    requires
        source_ok(b, toks),
        0 <= p <= toks.len(),
    ensures
        covers(b, toks, from_body(b, toks, p).1, p, from_body(b, toks, p).0),
{
    lemma_flags(b, toks, p);
    lemma_covers_flags(b, toks, p);
    let (p1, e1) = flags(b, toks, p);
    lemma_skip_intraline(toks, p1);
    let p2 = skip_intraline(toks, p1);
    let e2 = tok_events(toks, p1, p2);
    lemma_covers_tok_events(b, toks, p1, p2);
    let (p3, e3) = if on_line(toks, p2) {
        (p2 + 1, wrapped(SyntaxKind::IMAGE_REF, seq![Event::Token(toks[p2])]))
    } else {
        (p2, Seq::empty())
    };
    if on_line(toks, p2) {
        lemma_covers_one(b, toks, p2);
        lemma_covers_wrapped(b, toks, SyntaxKind::IMAGE_REF, seq![Event::Token(toks[p2])], p2, p2 + 1);
    } else {
        lemma_covers_empty(b, toks, p2);
    }
    lemma_skip_intraline(toks, p3);
    let p4 = skip_intraline(toks, p3);
    let e4 = tok_events(toks, p3, p4);
    lemma_covers_tok_events(b, toks, p3, p4);
    lemma_covers_stage_clause(b, toks, p4);
    let (p5, e5, d) = stage_clause(b, toks, p4);
    lemma_body_events(SyntaxKind::FROM_INSTR, b, toks, p);
    if p4 < toks.len() {
        lemma_skip_intraline(toks, p4 + 1);
    }
    assert(p5 <= toks.len());
    lemma_covers_generic_body(b, toks, p5);
    let (p6, e6) = generic_body(b, toks, p5);
    lemma_covers_concat(b, toks, e1, e2, p, p1, p2);
    lemma_covers_concat(b, toks, e1 + e2, e3, p, p2, p3);
    lemma_covers_concat(b, toks, e1 + e2 + e3, e4, p, p3, p4);
    lemma_covers_concat(b, toks, e1 + e2 + e3 + e4, e5, p, p4, p5);
    lemma_covers_concat(b, toks, e1 + e2 + e3 + e4 + e5, e6, p, p5, p6);
}

pub proof fn lemma_covers_kv_body(b: Seq<u8>, toks: Seq<Token>, p: int)
    requires
        source_ok(b, toks),
        0 <= p <= toks.len(),
    ensures
        covers(b, toks, kv_body(b, toks, p).1, p, kv_body(b, toks, p).0),
    decreases toks.len() - p,
{
    lemma_skip_intraline(toks, p);
    let i = skip_intraline(toks, p);
    lemma_covers_tok_events(b, toks, p, i);
    let triv = tok_events(toks, p, i);
    if on_line(toks, i) {
        if toks[i].kind is WORD {
            lemma_kv_pair_events(b, toks, i);
            lemma_covers_kv_pair(b, toks, i);
            let (q, e) = kv_pair_events(b, toks, i);
            lemma_covers_kv_body(b, toks, q);
            let (r, rest) = kv_body(b, toks, q);
            lemma_covers_concat(b, toks, triv, e, p, i, q);
            lemma_covers_concat(b, toks, triv + e, rest, p, q, r);
        } else {
            lemma_covers_one(b, toks, i);
            lemma_covers_kv_body(b, toks, i + 1);
            let (r, rest) = kv_body(b, toks, i + 1);
            lemma_covers_concat(b, toks, triv, seq![Event::Token(toks[i])], p, i, i + 1);
            lemma_covers_concat(b, toks, triv + seq![Event::Token(toks[i])], rest, p, i + 1, r);
        }
    }
}

pub proof fn lemma_covers_arg_body(b: Seq<u8>, toks: Seq<Token>, p: int)
    requires
        source_ok(b, toks),
        0 <= p <= toks.len(),
    ensures
        covers(b, toks, arg_body(b, toks, p).1, p, arg_body(b, toks, p).0),
{
    lemma_skip_intraline(toks, p);
    let i = skip_intraline(toks, p);
    lemma_covers_tok_events(b, toks, p, i);
    let triv = tok_events(toks, p, i);
    let (q, e) = if word_at(toks, i) {
        kv_pair_events(b, toks, i)
    } else {
        (i, Seq::empty())
    };
    if word_at(toks, i) {
        lemma_kv_pair_events(b, toks, i);
        lemma_covers_kv_pair(b, toks, i);
    } else {
        lemma_covers_empty(b, toks, i);
    }
    lemma_covers_generic_body(b, toks, q);
    let (r, g) = generic_body(b, toks, q);
    lemma_covers_concat(b, toks, triv, e, p, i, q);
    lemma_covers_concat(b, toks, triv + e, g, p, q, r);
}

pub proof fn lemma_covers_runlike_body(b: Seq<u8>, toks: Seq<Token>, p: int)
    requires
        source_ok(b, toks),
        0 <= p <= toks.len(),
    ensures
        covers(b, toks, runlike_body(b, toks, p).1, p, runlike_body(b, toks, p).0),
{
    lemma_flags(b, toks, p);
    lemma_covers_flags(b, toks, p);
    let (p1, e1) = flags(b, toks, p);
    lemma_skip_intraline(toks, p1);
    let p2 = skip_intraline(toks, p1);
    let e2 = tok_events(toks, p1, p2);
    lemma_covers_tok_events(b, toks, p1, p2);
    lemma_covers_concat(b, toks, e1, e2, p, p1, p2);
    lemma_covers_wrap_line(b, toks, SyntaxKind::EXEC_FORM, p2);
    lemma_covers_wrap_line(b, toks, SyntaxKind::SHELL_FORM, p2);
    let (q1, x1) = wrap_line(SyntaxKind::EXEC_FORM, toks, p2);
    let (q2, x2) = wrap_line(SyntaxKind::SHELL_FORM, toks, p2);
    lemma_covers_concat(b, toks, e1 + e2, x1, p, p2, q1);
    lemma_covers_concat(b, toks, e1 + e2, x2, p, p2, q2);
}

pub proof fn lemma_covers_copy_body(b: Seq<u8>, toks: Seq<Token>, p: int)
    requires
        source_ok(b, toks),
        0 <= p <= toks.len(),
    ensures
        covers(b, toks, copy_body(b, toks, p).1, p, copy_body(b, toks, p).0),
{
    lemma_flags(b, toks, p);
    lemma_covers_flags(b, toks, p);
    let (p1, e1) = flags(b, toks, p);
    lemma_skip_intraline(toks, p1);
    let p2 = skip_intraline(toks, p1);
    let e2 = tok_events(toks, p1, p2);
    lemma_covers_tok_events(b, toks, p1, p2);
    lemma_covers_concat(b, toks, e1, e2, p, p1, p2);
    lemma_covers_wrap_line(b, toks, SyntaxKind::EXEC_FORM, p2);
    let (q1, x1) = wrap_line(SyntaxKind::EXEC_FORM, toks, p2);
    lemma_covers_concat(b, toks, e1 + e2, x1, p, p2, q1);
    lemma_covers_generic_body(b, toks, p2);
    let (q2, x2) = generic_body(b, toks, p2);
    lemma_covers_concat(b, toks, e1 + e2, x2, p, p2, q2);
}

pub proof fn lemma_covers_body(kind: SyntaxKind, b: Seq<u8>, toks: Seq<Token>, p: int)
    requires
        source_ok(b, toks),
        0 <= p <= toks.len(),
    ensures
        covers(b, toks, body_events(kind, b, toks, p).1, p, body_events(kind, b, toks, p).0),
{
    match kind {
        SyntaxKind::FROM_INSTR => lemma_covers_from_body(b, toks, p),
        SyntaxKind::ENV_INSTR | SyntaxKind::LABEL_INSTR => lemma_covers_kv_body(b, toks, p),
        SyntaxKind::ARG_INSTR => lemma_covers_arg_body(b, toks, p),
        SyntaxKind::RUN_INSTR | SyntaxKind::CMD_INSTR | SyntaxKind::ENTRYPOINT_INSTR => lemma_covers_runlike_body(b, toks, p),
        SyntaxKind::COPY_INSTR | SyntaxKind::ADD_INSTR => lemma_covers_copy_body(b, toks, p),
        _ => lemma_covers_generic_body(b, toks, p),
    }
}

pub proof fn lemma_covers_top_item(b: Seq<u8>, toks: Seq<Token>, p: int)
    requires
        source_ok(b, toks),
        0 <= p < toks.len(),
    ensures
        covers(b, toks, top_item(b, toks, p).1, p, top_item(b, toks, p).0),
{
    let t = toks[p];
    lemma_covers_one(b, toks, p);
    if t.kind.trivia() {
    } else if t.kind is WORD {
        let kind = instruction_kind(b, t);
        lemma_covers_body(kind, b, toks, p + 1);
        lemma_body_events(kind, b, toks, p + 1);
        let (q, body, d1) = body_events(kind, b, toks, p + 1);
        lemma_covers_concat(b, toks, seq![Event::Token(t)], body, p, p + 1, q);
        lemma_covers_wrapped(b, toks, kind, seq![Event::Token(t)] + body, p, q);
    } else {
        lemma_covers_wrap_line(b, toks, SyntaxKind::INSTRUCTION, p);
    }
}

pub proof fn lemma_covers_top_level(b: Seq<u8>, toks: Seq<Token>, p: int)
    requires
        source_ok(b, toks),
        0 <= p <= toks.len(),
    ensures
        covers(b, toks, top_level(b, toks, p).0, p, toks.len() as int),
    decreases toks.len() - p,
{
    if p >= toks.len() {
        lemma_covers_empty(b, toks, p);
        assert forall|d: int| d >= 1 implies #[trigger] seg(b, Seq::<Event>::empty(), d, tpos(b, toks, p)) == Some(
            (d, tpos(b, toks, toks.len() as int)),
        ) by {}
    } else {
        lemma_top_item(b, toks, p);
        lemma_covers_top_item(b, toks, p);
        let (q, e, d) = top_item(b, toks, p);
        lemma_covers_top_level(b, toks, q);
        let (es, ds) = top_level(b, toks, q);
        lemma_covers_concat(b, toks, e, es, p, q, toks.len() as int);
    }
}

pub proof fn lemma_covers_seek(b: Seq<u8>, toks: Seq<Token>, p: int, r: TextRange)
    requires
        source_ok(b, toks),
        0 <= p <= toks.len(),
    ensures
        covers(b, toks, seek_directive(toks, p, r).1, p, seek_directive(toks, p, r).0),
    decreases toks.len() - p,
{
    if p >= toks.len() {
        lemma_covers_empty(b, toks, p);
    } else if toks[p].kind is COMMENT && toks[p].range == r {
        lemma_covers_one(b, toks, p);
        lemma_covers_wrapped(b, toks, SyntaxKind::PARSER_DIRECTIVE, seq![Event::Token(toks[p])], p, p + 1);
    } else if toks[p].kind is COMMENT {
        lemma_covers_empty(b, toks, p);
    } else {
        lemma_covers_one(b, toks, p);
        lemma_covers_seek(b, toks, p + 1, r);
        let (q, es, o) = seek_directive(toks, p + 1, r);
        lemma_covers_concat(b, toks, seq![Event::Token(toks[p])], es, p, p + 1, q);
    }
}

pub proof fn lemma_covers_directive_block(b: Seq<u8>, toks: Seq<Token>, p: int, rs: Seq<TextRange>, i: int)
    requires
        source_ok(b, toks),
        0 <= p <= toks.len(),
    ensures
        covers(b, toks, directive_block(toks, p, rs, i).1, p, directive_block(toks, p, rs, i).0),
    decreases rs.len() - i,
{
    if i < 0 || i >= rs.len() {
        lemma_covers_empty(b, toks, p);
    } else {
        lemma_covers_seek(b, toks, p, rs[i]);
        lemma_seek_directive(toks, p, rs[i]);
        let (q, es, o) = seek_directive(toks, p, rs[i]);
        if !(o == 1 || i == rs.len() - 1) {
            lemma_covers_directive_block(b, toks, q, rs, i + 1);
            let (r2, rest) = directive_block(toks, q, rs, i + 1);
            lemma_covers_concat(b, toks, es, rest, p, q, r2);
        }
    }
}

/// The events of a whole file open one `DOCKERFILE` node, cover the source
/// from its first byte to its last inside it, and close it at the very end.
pub proof fn lemma_file_events_cover(b: Seq<u8>, toks: Seq<Token>, rs: Seq<TextRange>)
    requires
        source_ok(b, toks),
    ensures
        ({
            let es = file_events(b, toks, rs).0;
            let inner = es.subrange(1, es.len() - 1);
            &&& es.len() >= 2
            &&& es == wrapped(SyntaxKind::DOCKERFILE, inner)
            &&& seg(b, inner, 1, 0) == Some((1int, b.len() as int))
        }),
{
    lemma_covers_directive_block(b, toks, 0, rs, 0);
    lemma_directive_block(toks, 0, rs, 0);
    let (p, d) = directive_block(toks, 0, rs, 0);
    lemma_covers_top_level(b, toks, p);
    let (es, ds) = top_level(b, toks, p);
    lemma_covers_concat(b, toks, d, es, 0, p, toks.len() as int);
    let all = file_events(b, toks, rs).0;
    assert(all.subrange(1, all.len() - 1) =~= d + es);
    assert(seg(b, d + es, 1, tpos(b, toks, 0)) == Some((1int, tpos(b, toks, toks.len() as int))));
    if toks.len() > 0 {
        assert(toks[0].range.start == 0);
    } else {
        assert(b.len() == 0);
    }
}

} // verus!
