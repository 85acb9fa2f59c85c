//! What the parser builds, stated over the token stream.
//!
//! The parser turns the lexer's tokens into a flat list of [`Event`]s: a
//! node is `Start(kind)`, its children, then `Finish`; a token is
//! `Token(token)`. The spec functions of this module give, for each parsing
//! routine, the position it stops at, the events it emits and the
//! diagnostics it reports, given the tokens `toks` of the source bytes `b`
//! and the position `p` it starts at.

use vstd::prelude::*;
use vstd::utf8::*;

use crate::diagnostics::Severity;
use crate::fmt_text::debug_str;
use crate::kind::SyntaxKind;
use crate::lexer::{token_at, Token};
use crate::text_range::TextRange;

verus! {

/// One step of building the tree: open a node, add a token, close the node
/// opened last.
#[derive(Debug, Clone, Copy, PartialEq, Eq, Structural)]
pub enum Event {
    Start(SyntaxKind),
    Token(Token),
    Finish,
}

/// A diagnostic as plain values: severity, message, range and rule code.
pub type DiagView = (Severity, Seq<char>, TextRange, Seq<char>);

/// The bytes a token covers.
pub open spec fn tok_bytes(b: Seq<u8>, t: Token) -> Seq<u8> {
    b.subrange(t.range.start as int, t.range.end as int)
}

/// The text a token covers.
pub open spec fn tok_text(b: Seq<u8>, t: Token) -> Seq<char> {
    decode_utf8(tok_bytes(b, t))
}

/// A `WORD` is a flag when it starts with `--`.
pub open spec fn flag_word(w: Seq<u8>) -> bool {
    w.len() >= 2 && w[0] == 45 && w[1] == 45
}

/// A `WORD` opens an exec-form array when it starts with `[`.
pub open spec fn bracket_word(w: Seq<u8>) -> bool {
    w.len() >= 1 && w[0] == 91
}

/// `AS`, in any case.
pub open spec fn as_word(w: Seq<u8>) -> bool {
    w.len() == 2 && (w[0] == 65 || w[0] == 97) && (w[1] == 83 || w[1] == 115)
}

/// The index of the first byte `x` at or after `i` in `w`, if any.
pub open spec fn byte_index(w: Seq<u8>, x: u8, i: int) -> Option<int>
    decreases w.len() - i,
{
    if i < 0 || i >= w.len() {
        None
    } else if w[i] == x {
        Some(i)
    } else {
        byte_index(w, x, i + 1)
    }
}

/// ASCII upper case of a byte.
pub open spec fn upper_byte(x: u8) -> u8 {
    if 97 <= x <= 122 {
        (x - 32) as u8
    } else {
        x
    }
}

/// The bytes `u` spell the characters `s`, one byte per character.
pub open spec fn spells(u: Seq<u8>, s: Seq<char>) -> bool {
    u.len() == s.len() && forall|i: int| 0 <= i < s.len() ==> u[i] as u32 == #[trigger] s[i] as u32
}

/// The instruction node kind for a keyword, compared case-insensitively.
pub open spec fn keyword_kind(w: Seq<u8>) -> Option<SyntaxKind> {
    let u = w.map_values(|x: u8| upper_byte(x));
    if spells(u, seq!['F', 'R', 'O', 'M']) {
        Some(SyntaxKind::FROM_INSTR)
    } else if spells(u, seq!['R', 'U', 'N']) {
        Some(SyntaxKind::RUN_INSTR)
    } else if spells(u, seq!['C', 'M', 'D']) {
        Some(SyntaxKind::CMD_INSTR)
    } else if spells(u, seq!['L', 'A', 'B', 'E', 'L']) {
        Some(SyntaxKind::LABEL_INSTR)
    } else if spells(u, seq!['M', 'A', 'I', 'N', 'T', 'A', 'I', 'N', 'E', 'R']) {
        Some(SyntaxKind::MAINTAINER_INSTR)
    } else if spells(u, seq!['E', 'X', 'P', 'O', 'S', 'E']) {
        Some(SyntaxKind::EXPOSE_INSTR)
    } else if spells(u, seq!['E', 'N', 'V']) {
        Some(SyntaxKind::ENV_INSTR)
    } else if spells(u, seq!['A', 'D', 'D']) {
        Some(SyntaxKind::ADD_INSTR)
    } else if spells(u, seq!['C', 'O', 'P', 'Y']) {
        Some(SyntaxKind::COPY_INSTR)
    } else if spells(u, seq!['E', 'N', 'T', 'R', 'Y', 'P', 'O', 'I', 'N', 'T']) {
        Some(SyntaxKind::ENTRYPOINT_INSTR)
    } else if spells(u, seq!['V', 'O', 'L', 'U', 'M', 'E']) {
        Some(SyntaxKind::VOLUME_INSTR)
    } else if spells(u, seq!['U', 'S', 'E', 'R']) {
        Some(SyntaxKind::USER_INSTR)
    } else if spells(u, seq!['W', 'O', 'R', 'K', 'D', 'I', 'R']) {
        Some(SyntaxKind::WORKDIR_INSTR)
    } else if spells(u, seq!['A', 'R', 'G']) {
        Some(SyntaxKind::ARG_INSTR)
    } else if spells(u, seq!['O', 'N', 'B', 'U', 'I', 'L', 'D']) {
        Some(SyntaxKind::ONBUILD_INSTR)
    } else if spells(u, seq!['S', 'T', 'O', 'P', 'S', 'I', 'G', 'N', 'A', 'L']) {
        Some(SyntaxKind::STOPSIGNAL_INSTR)
    } else if spells(u, seq!['H', 'E', 'A', 'L', 'T', 'H', 'C', 'H', 'E', 'C', 'K']) {
        Some(SyntaxKind::HEALTHCHECK_INSTR)
    } else if spells(u, seq!['S', 'H', 'E', 'L', 'L']) {
        Some(SyntaxKind::SHELL_INSTR)
    } else {
        None
    }
}

/// Instruction keywords are recognized case-insensitively: two words that
/// agree once their ASCII letters are upper-cased name the same instruction
/// (or both none).
pub proof fn lemma_keyword_ignores_case(w1: Seq<u8>, w2: Seq<u8>)
    requires
        w1.len() == w2.len(),
        forall|i: int| 0 <= i < w1.len() ==> upper_byte(#[trigger] w1[i]) == upper_byte(w2[i]),
    ensures
        keyword_kind(w1) == keyword_kind(w2),
{
    assert(w1.map_values(|x: u8| upper_byte(x)) =~= w2.map_values(|x: u8| upper_byte(x)));
}

/// The `AS` of a `FROM` stage clause is recognized whatever its case: a
/// word is `AS` exactly when it has two bytes that upper-case to `A` and
/// `S`, so two words that agree once upper-cased are both `AS` or both not.
pub proof fn lemma_as_word_ignores_case(w: Seq<u8>, w2: Seq<u8>)
    ensures
        as_word(w) <==> (w.len() == 2 && upper_byte(w[0]) == 65 && upper_byte(w[1]) == 83),
        w.len() == w2.len() && (forall|i: int| 0 <= i < w.len() ==> upper_byte(#[trigger] w[i]) == upper_byte(w2[i]))
            ==> (as_word(w) <==> as_word(w2)),
{
    if w.len() == w2.len() && (forall|i: int| 0 <= i < w.len() ==> upper_byte(#[trigger] w[i]) == upper_byte(w2[i])) && w.len() == 2 {
        assert(upper_byte(w[0]) == upper_byte(w2[0]));
        assert(upper_byte(w[1]) == upper_byte(w2[1]));
    }
}

/// A `FROM` word that upper-cases to `AS` — `as`, `As`, `aS` or `AS` —
/// starts the stage clause: the clause takes that word and what follows it.
pub proof fn lemma_stage_clause_any_case(b: Seq<u8>, toks: Seq<Token>, p: int)
    requires
        word_at(toks, p),
        tok_bytes(b, toks[p]).len() == 2,
        upper_byte(tok_bytes(b, toks[p])[0]) == 65,
        upper_byte(tok_bytes(b, toks[p])[1]) == 83,
    ensures
        stage_clause(b, toks, p).0 > p,
        stage_clause(b, toks, p).1.len() > 0 && stage_clause(b, toks, p).1[0] == Event::Token(toks[p]),
{
    lemma_as_word_ignores_case(tok_bytes(b, toks[p]), tok_bytes(b, toks[p]));
    if 0 <= p + 1 <= toks.len() {
        lemma_skip_intraline(toks, p + 1);
    }
}

/// Trivia that does not end a logical line.
pub open spec fn intraline(k: SyntaxKind) -> bool {
    k is WHITESPACE || k is LINE_CONTINUATION || k is COMMENT
}

/// The first position at or after `p` that is not intraline trivia.
pub open spec fn skip_intraline(toks: Seq<Token>, p: int) -> int
    decreases toks.len() - p,
{
    if 0 <= p < toks.len() && intraline(toks[p].kind) {
        skip_intraline(toks, p + 1)
    } else {
        p
    }
}

/// The first position at or after `p` that holds a `NEWLINE`, or the end.
pub open spec fn line_stop(toks: Seq<Token>, p: int) -> int
    decreases toks.len() - p,
{
    if 0 <= p < toks.len() && !(toks[p].kind is NEWLINE) {
        line_stop(toks, p + 1)
    } else {
        p
    }
}

/// The first position at or after `p` that is not trivia (newlines
/// included), or the end.
pub open spec fn next_significant(toks: Seq<Token>, p: int) -> int
    decreases toks.len() - p,
{
    if 0 <= p < toks.len() && toks[p].kind.trivia() {
        next_significant(toks, p + 1)
    } else {
        p
    }
}

/// The tokens at positions `p..q`, as events.
pub open spec fn tok_events(toks: Seq<Token>, p: int, q: int) -> Seq<Event> {
    Seq::new((q - p) as nat, |i: int| Event::Token(toks[p + i]))
}

/// Events wrapped in a node of `kind`.
pub open spec fn wrapped(kind: SyntaxKind, es: Seq<Event>) -> Seq<Event> {
    seq![Event::Start(kind)] + es + seq![Event::Finish]
}

/// There is a `WORD` at position `p`.
pub open spec fn word_at(toks: Seq<Token>, p: int) -> bool {
    0 <= p < toks.len() && toks[p].kind is WORD
}

/// There is a flag `WORD` at position `p`.
pub open spec fn flag_at(b: Seq<u8>, toks: Seq<Token>, p: int) -> bool {
    word_at(toks, p) && flag_word(tok_bytes(b, toks[p]))
}

/// There is a token at `p` and it is not a `NEWLINE`.
pub open spec fn on_line(toks: Seq<Token>, p: int) -> bool {
    0 <= p < toks.len() && !(toks[p].kind is NEWLINE)
}

/// A `WORD` token split at its byte `k` (an `=`): the key, the `=`, and the
/// rest when it is not empty.
pub open spec fn split_events(t: Token, k: int) -> Seq<Event> {
    let s = t.range.start as int;
    let e = t.range.end as int;
    seq![
        Event::Token(token_at(SyntaxKind::WORD, s, s + k)),
        Event::Token(token_at(SyntaxKind::EQUALS, s + k, s + k + 1)),
    ] + if s + k + 1 < e {
        seq![Event::Token(token_at(SyntaxKind::WORD, s + k + 1, e))]
    } else {
        Seq::empty()
    }
}

/// The `name=value` part shared by flags and key-value pairs, for a `WORD` at
/// `p` whose first `=` is at byte `k`: when the `=` ends the word and a
/// string follows, the string is the value.
pub open spec fn split_pair(toks: Seq<Token>, p: int, k: int) -> (int, Seq<Event>) {
    let t = toks[p];
    if p + 1 < toks.len() && toks[p + 1].kind is STRING && k == tok_len(t) - 1 {
        (p + 2, split_events(t, k) + seq![Event::Token(toks[p + 1])])
    } else {
        (p + 1, split_events(t, k))
    }
}

/// The number of bytes a token covers.
pub open spec fn tok_len(t: Token) -> int {
    t.range.end - t.range.start
}

/// A `--flag` or `--flag=value` argument at `p`, as a `FLAG` node.
pub open spec fn flag_events(b: Seq<u8>, toks: Seq<Token>, p: int) -> (int, Seq<Event>) {
    match byte_index(tok_bytes(b, toks[p]), 61, 0) {
        Some(k) => {
            let (q, es) = split_pair(toks, p, k);
            (q, wrapped(SyntaxKind::FLAG, es))
        },
        None => (p + 1, wrapped(SyntaxKind::FLAG, seq![Event::Token(toks[p])])),
    }
}

/// A `key=value` pair, or a bare key with the rest of the line as its value,
/// at `p`, as a `KEY_VALUE` node.
pub open spec fn kv_pair_events(b: Seq<u8>, toks: Seq<Token>, p: int) -> (int, Seq<Event>) {
    match byte_index(tok_bytes(b, toks[p]), 61, 0) {
        Some(k) => {
            let (q, es) = split_pair(toks, p, k);
            (q, wrapped(SyntaxKind::KEY_VALUE, es))
        },
        None => {
            let q = line_stop(toks, p + 1);
            (q, wrapped(SyntaxKind::KEY_VALUE, tok_events(toks, p, q)))
        },
    }
}

/// The tokens from `p` to the end of the logical line wrapped in a node of
/// `kind`.
pub open spec fn wrap_line(kind: SyntaxKind, toks: Seq<Token>, p: int) -> (int, Seq<Event>) {
    let q = line_stop(toks, p);
    (q, wrapped(kind, tok_events(toks, p, q)))
}

/// Everything up to the end of the logical line, flags as `FLAG` nodes.
pub open spec fn generic_body(b: Seq<u8>, toks: Seq<Token>, p: int) -> (int, Seq<Event>)
    decreases toks.len() - p,
{
    if !on_line(toks, p) {
        (p, Seq::empty())
    } else if flag_at(b, toks, p) {
        let (q, f) = flag_events(b, toks, p);
        proof {
            lemma_flag_events(b, toks, p);
        }
        let (r, rest) = generic_body(b, toks, q);
        (r, f + rest)
    } else {
        let (r, rest) = generic_body(b, toks, p + 1);
        (r, seq![Event::Token(toks[p])] + rest)
    }
}

/// Leading flags, each after optional intraline trivia.
pub open spec fn flags(b: Seq<u8>, toks: Seq<Token>, p: int) -> (int, Seq<Event>)
    decreases toks.len() - p,
{
    let i = skip_intraline(toks, p);
    proof {
        if 0 <= p <= toks.len() {
            lemma_skip_intraline(toks, p);
        }
    }
    let triv = tok_events(toks, p, i);
    if p >= 0 && flag_at(b, toks, i) {
        let (q, f) = flag_events(b, toks, i);
        proof {
            lemma_flag_events(b, toks, i);
        }
        let (r, rest) = flags(b, toks, q);
        (r, triv + f + rest)
    } else {
        (i, triv)
    }
}

/// The range diagnostics about a missing part point at: the token at `p`,
/// else the last token, else `0..0`.
pub open spec fn tail_range(toks: Seq<Token>, p: int) -> TextRange {
    if 0 <= p < toks.len() {
        toks[p].range
    } else if toks.len() > 0 {
        toks.last().range
    } else {
        TextRange { start: 0, end: 0 }
    }
}

/// `DF010`: `AS` without a stage name.
pub open spec fn no_stage_name_diag(r: TextRange) -> DiagView {
    (Severity::Error, "expected stage name after `AS`"@, r, "DF010"@)
}

/// `DF020`: a `RUN`/`CMD`/`ENTRYPOINT` without a body.
pub open spec fn no_body_diag(r: TextRange) -> DiagView {
    (Severity::Warning, "instruction has no body"@, r, "DF020"@)
}

/// `DF001`: an unknown instruction keyword.
pub open spec fn unknown_instruction_diag(text: Seq<char>, r: TextRange) -> DiagView {
    (Severity::Warning, "unknown Dockerfile instruction: "@ + debug_str(text), r, "DF001"@)
}

/// `DF000`: a significant token that cannot start an instruction.
pub open spec fn unexpected_token_diag(text: Seq<char>, r: TextRange) -> DiagView {
    (Severity::Error, "unexpected token at top level: "@ + debug_str(text), r, "DF000"@)
}

/// The optional `AS <name>` clause of `FROM`, with the `AS` at `p`.
pub open spec fn stage_clause(b: Seq<u8>, toks: Seq<Token>, p: int) -> (int, Seq<Event>, Seq<DiagView>) {
    if word_at(toks, p) && as_word(tok_bytes(b, toks[p])) {
        let n = skip_intraline(toks, p + 1);
        let head = seq![Event::Token(toks[p])] + tok_events(toks, p + 1, n);
        if on_line(toks, n) {
            (n + 1, head + wrapped(SyntaxKind::STAGE_NAME, seq![Event::Token(toks[n])]), Seq::empty())
        } else {
            (n, head, seq![no_stage_name_diag(tail_range(toks, n))])
        }
    } else {
        (p, Seq::empty(), Seq::empty())
    }
}

/// `FROM [--platform=<p>] <image>[:<tag>][@<digest>] [AS <name>]`, after the
/// keyword.
pub open spec fn from_body(b: Seq<u8>, toks: Seq<Token>, p: int) -> (int, Seq<Event>, Seq<DiagView>) {
    let (p1, e1) = flags(b, toks, p);
    let p2 = skip_intraline(toks, p1);
    let e2 = tok_events(toks, p1, p2);
    let (p3, e3) = if on_line(toks, p2) {
        (p2 + 1, wrapped(SyntaxKind::IMAGE_REF, seq![Event::Token(toks[p2])]))
    } else {
        (p2, Seq::empty())
    };
    let p4 = skip_intraline(toks, p3);
    let e4 = tok_events(toks, p3, p4);
    let (p5, e5, d) = stage_clause(b, toks, p4);
    let (p6, e6) = generic_body(b, toks, p5);
    (p6, e1 + e2 + e3 + e4 + e5 + e6, d)
}

/// `ENV`/`LABEL` body: key-value pairs, with other tokens kept as they are.
pub open spec fn kv_body(b: Seq<u8>, toks: Seq<Token>, p: int) -> (int, Seq<Event>)
    decreases toks.len() - p,
{
    let i = skip_intraline(toks, p);
    proof {
        if 0 <= p <= toks.len() {
            lemma_skip_intraline(toks, p);
        }
    }
    let triv = tok_events(toks, p, i);
    if p < 0 || !on_line(toks, i) {
        (i, triv)
    } else if toks[i].kind is WORD {
        let (q, e) = kv_pair_events(b, toks, i);
        proof {
            lemma_kv_pair_events(b, toks, i);
        }
        let (r, rest) = kv_body(b, toks, q);
        (r, triv + e + rest)
    } else {
        let (r, rest) = kv_body(b, toks, i + 1);
        (r, triv + seq![Event::Token(toks[i])] + rest)
    }
}

/// `ARG name[=default]` body.
pub open spec fn arg_body(b: Seq<u8>, toks: Seq<Token>, p: int) -> (int, Seq<Event>) {
    let i = skip_intraline(toks, p);
    let triv = tok_events(toks, p, i);
    let (q, e) = if word_at(toks, i) {
        kv_pair_events(b, toks, i)
    } else {
        (i, Seq::empty())
    };
    let (r, g) = generic_body(b, toks, q);
    (r, triv + e + g)
}

/// An exec form starts at `p`: a word beginning with `[`.
pub open spec fn exec_form_at(b: Seq<u8>, toks: Seq<Token>, p: int) -> bool {
    word_at(toks, p) && bracket_word(tok_bytes(b, toks[p]))
}

/// The next significant token at or after `p` — past newlines too — is a
/// word beginning with `[`.
pub open spec fn exec_form_ahead(b: Seq<u8>, toks: Seq<Token>, p: int) -> bool {
    let s = next_significant(toks, p);
    word_at(toks, s) && bracket_word(tok_bytes(b, toks[s]))
}

/// A body starts at `p`, on the current line: a token that is not a
/// newline.
pub open spec fn body_at(toks: Seq<Token>, p: int) -> bool {
    0 <= p < toks.len() && !(toks[p].kind is NEWLINE)
}

/// `RUN`/`CMD`/`ENTRYPOINT` body: flags, then an exec form or a shell form
/// on the same logical line; with neither, a `DF020` warning and no form.
pub open spec fn runlike_body(b: Seq<u8>, toks: Seq<Token>, p: int) -> (int, Seq<Event>, Seq<DiagView>) {
    let (p1, e1) = flags(b, toks, p);
    let p2 = skip_intraline(toks, p1);
    let e2 = tok_events(toks, p1, p2);
    if exec_form_at(b, toks, p2) {
        let (q, e3) = wrap_line(SyntaxKind::EXEC_FORM, toks, p2);
        (q, e1 + e2 + e3, Seq::empty())
    } else if body_at(toks, p2) {
        let (q, e3) = wrap_line(SyntaxKind::SHELL_FORM, toks, p2);
        (q, e1 + e2 + e3, Seq::empty())
    } else {
        (p2, e1 + e2, seq![no_body_diag(tail_range(toks, p2))])
    }
}

/// `COPY`/`ADD` body: flags, then an exec-form array or sources and
/// destination. Whether the array form is taken is decided by the next
/// significant token, which may lie past the end of the line (the form's
/// node then holds the rest of the current line, possibly nothing).
pub open spec fn copy_body(b: Seq<u8>, toks: Seq<Token>, p: int) -> (int, Seq<Event>) {
    let (p1, e1) = flags(b, toks, p);
    let p2 = skip_intraline(toks, p1);
    let e2 = tok_events(toks, p1, p2);
    if exec_form_ahead(b, toks, p2) {
        let (q, e3) = wrap_line(SyntaxKind::EXEC_FORM, toks, p2);
        (q, e1 + e2 + e3)
    } else {
        let (q, e3) = generic_body(b, toks, p2);
        (q, e1 + e2 + e3)
    }
}

/// The body of an instruction whose node kind is `kind`, after the keyword.
pub open spec fn body_events(kind: SyntaxKind, b: Seq<u8>, toks: Seq<Token>, p: int) -> (int, Seq<Event>, Seq<DiagView>) {
    match kind {
        SyntaxKind::FROM_INSTR => from_body(b, toks, p),
        SyntaxKind::ENV_INSTR | SyntaxKind::LABEL_INSTR => {
            let (q, e) = kv_body(b, toks, p);
            (q, e, Seq::empty())
        },
        SyntaxKind::ARG_INSTR => {
            let (q, e) = arg_body(b, toks, p);
            (q, e, Seq::empty())
        },
        SyntaxKind::RUN_INSTR | SyntaxKind::CMD_INSTR | SyntaxKind::ENTRYPOINT_INSTR => runlike_body(b, toks, p),
        SyntaxKind::COPY_INSTR | SyntaxKind::ADD_INSTR => {
            let (q, e) = copy_body(b, toks, p);
            (q, e, Seq::empty())
        },
        _ => {
            let (q, e) = generic_body(b, toks, p);
            (q, e, Seq::empty())
        },
    }
}

/// The node kind of an instruction whose keyword token is `t`: its
/// instruction kind, or `INSTRUCTION` for an unknown keyword.
pub open spec fn instruction_kind(b: Seq<u8>, t: Token) -> SyntaxKind {
    match keyword_kind(tok_bytes(b, t)) {
        Some(k) => k,
        None => SyntaxKind::INSTRUCTION,
    }
}

/// An instruction whose keyword `WORD` is at `p`.
pub open spec fn instruction(b: Seq<u8>, toks: Seq<Token>, p: int) -> (int, Seq<Event>, Seq<DiagView>) {
    let t = toks[p];
    let kind = instruction_kind(b, t);
    let d0 = match keyword_kind(tok_bytes(b, t)) {
        Some(_) => Seq::empty(),
        None => seq![unknown_instruction_diag(tok_text(b, t), t.range)],
    };
    let (q, body, d1) = body_events(kind, b, toks, p + 1);
    (q, wrapped(kind, seq![Event::Token(t)] + body), d0 + d1)
}

/// One top-level item at `p < toks.len()`: a trivia token, an instruction,
/// or a stray token whose logical line becomes an `INSTRUCTION` node.
pub open spec fn top_item(b: Seq<u8>, toks: Seq<Token>, p: int) -> (int, Seq<Event>, Seq<DiagView>) {
    let t = toks[p];
    if t.kind.trivia() {
        (p + 1, seq![Event::Token(t)], Seq::empty())
    } else if t.kind is WORD {
        instruction(b, toks, p)
    } else {
        let (q, e) = wrap_line(SyntaxKind::INSTRUCTION, toks, p);
        (q, e, seq![unexpected_token_diag(tok_text(b, t), t.range)])
    }
}

/// All top-level items from `p` to the end.
pub open spec fn top_level(b: Seq<u8>, toks: Seq<Token>, p: int) -> (Seq<Event>, Seq<DiagView>)
    decreases toks.len() - p,
{
    if p < 0 || p >= toks.len() {
        (Seq::empty(), Seq::empty())
    } else {
        let (q, e, d) = top_item(b, toks, p);
        proof {
            lemma_top_item(b, toks, p);
        }
        let (es, ds) = top_level(b, toks, q);
        (e + es, d + ds)
    }
}

/// Looking for the `COMMENT` token of a directive whose line is `r`: the
/// tokens before it, then the comment in a `PARSER_DIRECTIVE` node. The
/// outcome is 0 when found, 1 when another comment came first, 2 at the end.
pub open spec fn seek_directive(toks: Seq<Token>, p: int, r: TextRange) -> (int, Seq<Event>, u8)
    decreases toks.len() - p,
{
    if p < 0 || p >= toks.len() {
        (p, Seq::empty(), 2)
    } else if toks[p].kind is COMMENT && toks[p].range == r {
        (p + 1, wrapped(SyntaxKind::PARSER_DIRECTIVE, seq![Event::Token(toks[p])]), 0)
    } else if toks[p].kind is COMMENT {
        (p, Seq::empty(), 1)
    } else {
        let (q, es, o) = seek_directive(toks, p + 1, r);
        (q, seq![Event::Token(toks[p])] + es, o)
    }
}

/// The leading directive block: for each directive line `rs[i]` in turn,
/// the tokens up to its comment, then the comment as a `PARSER_DIRECTIVE`.
pub open spec fn directive_block(toks: Seq<Token>, p: int, rs: Seq<TextRange>, i: int) -> (int, Seq<Event>)
    decreases rs.len() - i,
{
    if i < 0 || i >= rs.len() {
        (p, Seq::empty())
    } else {
        let (q, es, o) = seek_directive(toks, p, rs[i]);
        if o == 1 || i == rs.len() - 1 {
            (q, es)
        } else {
            let (r, rest) = directive_block(toks, q, rs, i + 1);
            (r, es + rest)
        }
    }
}

/// The events and diagnostics of the whole file: a `DOCKERFILE` node holding
/// the directive block and then every top-level item.
pub open spec fn file_events(b: Seq<u8>, toks: Seq<Token>, rs: Seq<TextRange>) -> (Seq<Event>, Seq<DiagView>) {
    let (p, d) = directive_block(toks, 0, rs, 0);
    let (es, ds) = top_level(b, toks, p);
    (wrapped(SyntaxKind::DOCKERFILE, d + es), ds)
}

// ----------------------------------------------------------------------
// Progress: every routine stays within the tokens, and the recursive ones
// make progress.
// ----------------------------------------------------------------------

pub proof fn lemma_skip_intraline(toks: Seq<Token>, p: int)
    requires
        0 <= p <= toks.len(),
    ensures
        p <= skip_intraline(toks, p) <= toks.len(),
        skip_intraline(toks, p) < toks.len() ==> !intraline(toks[skip_intraline(toks, p)].kind),
        forall|j: int| p <= j < skip_intraline(toks, p) ==> intraline(#[trigger] toks[j].kind),
    decreases toks.len() - p,
{
    if p < toks.len() && intraline(toks[p].kind) {
        lemma_skip_intraline(toks, p + 1);
    }
}

pub proof fn lemma_line_stop(toks: Seq<Token>, p: int)
    requires
        0 <= p <= toks.len(),
    ensures
        p <= line_stop(toks, p) <= toks.len(),
        line_stop(toks, p) < toks.len() ==> toks[line_stop(toks, p)].kind is NEWLINE,
        forall|j: int| p <= j < line_stop(toks, p) ==> !(#[trigger] toks[j].kind is NEWLINE),
    decreases toks.len() - p,
{
    if p < toks.len() && !(toks[p].kind is NEWLINE) {
        lemma_line_stop(toks, p + 1);
    }
}

pub proof fn lemma_next_significant(toks: Seq<Token>, p: int)
    requires
        0 <= p <= toks.len(),
    ensures
        p <= next_significant(toks, p) <= toks.len(),
        next_significant(toks, p) < toks.len() ==> !toks[next_significant(toks, p)].kind.trivia(),
        forall|j: int| p <= j < next_significant(toks, p) ==> (#[trigger] toks[j].kind).trivia(),
    decreases toks.len() - p,
{
    if p < toks.len() && toks[p].kind.trivia() {
        lemma_next_significant(toks, p + 1);
    }
}

pub proof fn lemma_byte_index(w: Seq<u8>, x: u8, i: int)
    requires
        0 <= i,
    ensures
        byte_index(w, x, i) matches Some(k) ==> i <= k < w.len() && w[k] == x,
    decreases w.len() - i,
{
    if i < w.len() && w[i] != x {
        lemma_byte_index(w, x, i + 1);
    }
}

pub proof fn lemma_flag_events(b: Seq<u8>, toks: Seq<Token>, p: int)
    requires
        0 <= p < toks.len(),
    ensures
        p < flag_events(b, toks, p).0 <= toks.len(),
{
}

pub proof fn lemma_kv_pair_events(b: Seq<u8>, toks: Seq<Token>, p: int)
    requires
        0 <= p < toks.len(),
    ensures
        p < kv_pair_events(b, toks, p).0 <= toks.len(),
{
    lemma_line_stop(toks, p + 1);
}

pub proof fn lemma_generic_body(b: Seq<u8>, toks: Seq<Token>, p: int)
    requires
        0 <= p <= toks.len(),
    ensures
        p <= generic_body(b, toks, p).0 <= toks.len(),
    decreases toks.len() - p,
{
    if on_line(toks, p) {
        if flag_at(b, toks, p) {
            lemma_flag_events(b, toks, p);
            lemma_generic_body(b, toks, flag_events(b, toks, p).0);
        } else {
            lemma_generic_body(b, toks, p + 1);
        }
    }
}

pub proof fn lemma_flags(b: Seq<u8>, toks: Seq<Token>, p: int)
    requires
        0 <= p <= toks.len(),
    ensures
        p <= flags(b, toks, p).0 <= toks.len(),
    decreases toks.len() - p,
{
    lemma_skip_intraline(toks, p);
    let i = skip_intraline(toks, p);
    if flag_at(b, toks, i) {
        lemma_flag_events(b, toks, i);
        lemma_flags(b, toks, flag_events(b, toks, i).0);
    }
}

pub proof fn lemma_kv_body(b: Seq<u8>, toks: Seq<Token>, p: int)
    requires
        0 <= p <= toks.len(),
    ensures
        p <= kv_body(b, toks, p).0 <= toks.len(),
    decreases toks.len() - p,
{
    lemma_skip_intraline(toks, p);
    let i = skip_intraline(toks, p);
    if on_line(toks, i) {
        if toks[i].kind is WORD {
            lemma_kv_pair_events(b, toks, i);
            lemma_kv_body(b, toks, kv_pair_events(b, toks, i).0);
        } else {
            lemma_kv_body(b, toks, i + 1);
        }
    }
}

pub proof fn lemma_body_events(kind: SyntaxKind, b: Seq<u8>, toks: Seq<Token>, p: int)
    requires
        0 <= p <= toks.len(),
    ensures
        p <= body_events(kind, b, toks, p).0 <= toks.len(),
{
    lemma_flags(b, toks, p);
    let p1 = flags(b, toks, p).0;
    lemma_skip_intraline(toks, p1);
    let p2 = skip_intraline(toks, p1);
    lemma_line_stop(toks, p2);
    lemma_generic_body(b, toks, p2);
    lemma_generic_body(b, toks, p);
    lemma_kv_body(b, toks, p);
    // ARG
    lemma_skip_intraline(toks, p);
    let i = skip_intraline(toks, p);
    if word_at(toks, i) {
        lemma_kv_pair_events(b, toks, i);
        lemma_generic_body(b, toks, kv_pair_events(b, toks, i).0);
    } else {
        lemma_generic_body(b, toks, i);
    }
    // FROM
    let p3 = if on_line(toks, p2) { p2 + 1 } else { p2 };
    lemma_skip_intraline(toks, p3);
    let p4 = skip_intraline(toks, p3);
    if p4 < toks.len() {
        lemma_skip_intraline(toks, p4 + 1);
    }
    let p5 = stage_clause(b, toks, p4).0;
    lemma_generic_body(b, toks, p5);
}

pub proof fn lemma_top_item(b: Seq<u8>, toks: Seq<Token>, p: int)
    requires
        0 <= p < toks.len(),
    ensures
        p < top_item(b, toks, p).0 <= toks.len(),
{
    lemma_line_stop(toks, p);
    lemma_body_events(instruction_kind(b, toks[p]), b, toks, p + 1);
}

pub proof fn lemma_seek_directive(toks: Seq<Token>, p: int, r: TextRange)
    requires
        0 <= p <= toks.len(),
    ensures
        p <= seek_directive(toks, p, r).0 <= toks.len(),
    decreases toks.len() - p,
{
    if p < toks.len() && !(toks[p].kind is COMMENT) {
        lemma_seek_directive(toks, p + 1, r);
    }
}

pub proof fn lemma_directive_block(toks: Seq<Token>, p: int, rs: Seq<TextRange>, i: int)
    requires
        0 <= p <= toks.len(),
    ensures
        p <= directive_block(toks, p, rs, i).0 <= toks.len(),
    decreases rs.len() - i,
{
    if 0 <= i < rs.len() {
        lemma_seek_directive(toks, p, rs[i]);
        let (q, es, o) = seek_directive(toks, p, rs[i]);
        if !(o == 1 || i == rs.len() - 1) {
            lemma_directive_block(toks, q, rs, i + 1);
        }
    }
}

} // verus!
