//! The parser: walks the lexer's tokens and emits the [`Event`]s of the
//! tree, recognizing instruction keywords case-insensitively and giving each
//! instruction its structural sub-nodes (flags, key-value pairs, exec or
//! shell form, image reference, stage name).
//!
//! # Trivia handling
//!
//! Trivia that sits *between* instructions stays at the `DOCKERFILE` level.
//! Trivia *within* an instruction's logical line — line continuations
//! included — is captured inside the instruction's node. The terminating
//! newline of an instruction is *not* part of the instruction node.
//!
//! Every routine's behaviour is the spec function of the same name in
//! [`crate::grammar`].

use vstd::prelude::*;
use vstd::utf8::*;

use crate::diagnostics::{Diagnostic, Severity};
use crate::directive::ParserDirective;
use crate::fmt_text::debug_quoted;
use crate::grammar::{
    arg_body, as_word, body_events, bracket_word, byte_index, copy_body, lemma_byte_index, directive_block,
    body_at, exec_form_ahead, exec_form_at, file_events, flag_at, flag_events, flag_word, flags, from_body, generic_body,
    instruction, instruction_kind, intraline, keyword_kind, spells, kv_body, kv_pair_events,
    lemma_body_events, lemma_directive_block, lemma_flag_events, lemma_flags, lemma_generic_body,
    lemma_kv_body, lemma_kv_pair_events, lemma_line_stop, lemma_next_significant,
    lemma_seek_directive, lemma_skip_intraline, lemma_top_item, line_stop, next_significant,
    no_body_diag, no_stage_name_diag, on_line, runlike_body, seek_directive, skip_intraline,
    split_events, split_pair, stage_clause, tail_range, tok_bytes, tok_events, tok_text,
    top_item, top_level, unexpected_token_diag, unknown_instruction_diag, upper_byte, word_at,
    wrap_line, wrapped, DiagView, Event,
};
use crate::kind::SyntaxKind;
use crate::lexer::{lemma_lex_boundaries, lemma_lex_tiles, lex_from, lex_with_escape, tiles, token_at, Token};
use crate::text_range::TextRange;
use crate::utf8_text::{bytes_of, lemma_str_bytes};

verus! {

/// The view of a diagnostic: severity, message, range, and code (empty when
/// there is none).
pub open spec fn diag_view(d: Diagnostic) -> DiagView {
    (d.severity, d.message@, d.range, match d.code {
        Some(c) => c@,
        None => Seq::empty(),
    })
}

/// The views of a list of diagnostics.
pub open spec fn diag_views(ds: Seq<Diagnostic>) -> Seq<DiagView> {
    ds.map_values(|d: Diagnostic| diag_view(d))
}

/// The tokens of the source bytes `b` lie within `b` and cut it at character
/// boundaries, and they cover it exactly.
pub open spec fn tokens_ok(b: Seq<u8>, toks: Seq<Token>) -> bool {
    &&& forall|i: int|
        0 <= i < toks.len() ==> {
            let t = #[trigger] toks[i];
            &&& is_char_boundary(b, t.range.start as int)
            &&& is_char_boundary(b, t.range.end as int)
            &&& t.range.start <= t.range.end <= b.len()
        }
    &&& tiles(toks, 0, b.len() as int)
}

/// `toks` are the tokens of the bytes `b` (at most `u32::MAX` of them),
/// lexed with the ASCII escape byte `esc`.
#[verifier::opaque]
pub(crate) open spec fn source_tokens(b: Seq<u8>, esc: u8, toks: Seq<Token>) -> bool {
    &&& b.len() <= u32::MAX
    &&& esc < 0x80
    &&& toks == lex_from(b, 0, esc, true)
    &&& tokens_ok(b, toks)
}

/// Internal parser state.
pub(crate) struct Parser<'a> {
    pub(crate) src: &'a str,
    pub(crate) escape: u8,
    pub(crate) tokens: Vec<Token>,
    pub(crate) pos: usize,
    pub(crate) events: Vec<Event>,
    pub(crate) diagnostics: Vec<Diagnostic>,
    pub(crate) directives: Vec<ParserDirective>,
}

/// `a` and `c` parse the same source with the same tokens and directives.
pub(crate) open spec fn frame(a: Parser, c: Parser) -> bool {
    &&& a.src == c.src
    &&& a.escape == c.escape
    &&& a.tokens@ == c.tokens@
    &&& a.directives@ == c.directives@
}

/// Going from `a` to `c` consumed the tokens up to position `q`, emitted
/// the events `e` and reported the diagnostics `d`.
pub(crate) open spec fn ran(a: Parser, c: Parser, q: int, e: Seq<Event>, d: Seq<DiagView>) -> bool {
    &&& c.inv()
    &&& frame(a, c)
    &&& c.pos == q
    &&& c.events@ == a.events@ + e
    &&& diag_views(c.diagnostics@) == diag_views(a.diagnostics@) + d
}

pub proof fn lemma_tok_events_push(toks: Seq<Token>, p: int, q: int)
    requires
        p <= q < toks.len(),
    ensures
        tok_events(toks, p, q + 1) == tok_events(toks, p, q).push(Event::Token(toks[q])),
{
    assert(tok_events(toks, p, q + 1) =~= tok_events(toks, p, q).push(Event::Token(toks[q])));
}

pub proof fn lemma_tok_events_concat(toks: Seq<Token>, p: int, q: int, r: int)
    requires
        p <= q <= r,
    ensures
        tok_events(toks, p, q) + tok_events(toks, q, r) == tok_events(toks, p, r),
{
    assert(tok_events(toks, p, q) + tok_events(toks, q, r) =~= tok_events(toks, p, r));
}

/// Skipping intraline trivia does not pass the end of the line.
pub proof fn lemma_line_stop_skip(toks: Seq<Token>, p: int)
    requires
        0 <= p <= toks.len(),
    ensures
        line_stop(toks, skip_intraline(toks, p)) == line_stop(toks, p),
    decreases toks.len() - p,
{
    if p < toks.len() && intraline(toks[p].kind) {
        lemma_line_stop_skip(toks, p + 1);
    }
}

/// The index of the first byte `x` in `bytes[start..end]`, if any.
fn find_byte(bytes: &[u8], start: usize, end: usize, x: u8) -> (r: Option<usize>)
    requires
        start <= end <= bytes@.len(),
    ensures
        match byte_index(bytes@.subrange(start as int, end as int), x, 0) {
            Some(k) => r == Some((start + k) as usize),
            None => r is None,
        },
{
    let ghost w = bytes@.subrange(start as int, end as int);
    let mut i = start;
    while i < end
        invariant
            start <= i <= end <= bytes@.len(),
            w == bytes@.subrange(start as int, end as int),
            byte_index(w, x, i - start) == byte_index(w, x, 0),
        decreases end - i,
    {
        assert(w[i - start] == bytes@[i as int]);
        if bytes[i] == x {
            return Some(i);
        }
        i += 1;
    }
    None
}

/// `true` if a `WORD` token's text is a `--flag` argument. A bare `--` is a
/// flag introducer too; single-dash `-foo` is *not* a flag in Dockerfile
/// syntax.
fn is_flag_word(text: &str) -> (r: bool)
    ensures
        r == flag_word(bytes_of(text)),
{
    let b = text.as_bytes();
    b.len() >= 2 && b[0] == 45 && b[1] == 45
}

/// `true` if the text starts with `[`.
fn starts_with_bracket(text: &str) -> (r: bool)
    ensures
        r == bracket_word(bytes_of(text)),
{
    let b = text.as_bytes();
    b.len() >= 1 && b[0] == 91
}

/// `true` if the text is `AS`, in any case.
fn is_as_keyword(text: &str) -> (r: bool)
    ensures
        r == as_word(bytes_of(text)),
{
    let b = text.as_bytes();
    b.len() == 2 && (b[0] == 65 || b[0] == 97) && (b[1] == 83 || b[1] == 115)
}

/// Whether the upper-cased bytes `u` spell the keyword `kw`.
fn matches_keyword(u: &Vec<u8>, kw: &Vec<char>) -> (r: bool)
    ensures
        r == spells(u@, kw@),
{
    if u.len() != kw.len() {
        return false;
    }
    let mut i: usize = 0;
    while i < u.len()
        invariant
            u@.len() == kw@.len(),
            i <= u@.len(),
            forall|j: int| 0 <= j < i ==> u@[j] as u32 == #[trigger] kw@[j] as u32,
        decreases u@.len() - i,
    {
        if u[i] as u32 != kw[i] as u32 {
            return false;
        }
        i += 1;
    }
    true
}

/// Recognize a Dockerfile instruction keyword. Returns the corresponding
/// instruction node kind, or `None` if `text` is not a known keyword.
///
/// Recognition is case-insensitive — Docker accepts `from`, `FROM`, `From`,
/// etc. The canonical form is upper-case.
pub fn recognize_instruction(text: &str) -> (r: Option<SyntaxKind>)
    ensures
        r == keyword_kind(bytes_of(text)),
{
    let bytes = text.as_bytes();
    let ghost w = bytes@;
    if bytes.len() > 16 {
        assert(w.map_values(|x: u8| upper_byte(x)).len() > 16);
        return None;
    }
    let mut upper: Vec<u8> = Vec::new();
    let mut i: usize = 0;
    while i < bytes.len()
        invariant
            i <= bytes@.len(),
            w == bytes@,
            upper@ == w.subrange(0, i as int).map_values(|x: u8| upper_byte(x)),
        decreases bytes@.len() - i,
    {
        let x = bytes[i];
        let u = if 97 <= x && x <= 122 {
            x - 32
        } else {
            x
        };
        upper.push(u);
        assert(w.subrange(0, i + 1).map_values(|x: u8| upper_byte(x)) =~= w.subrange(0, i as int).map_values(
            |x: u8| upper_byte(x),
        ).push(upper_byte(x)));
        i += 1;
    }
    assert(w.subrange(0, w.len() as int) =~= w);
    let r = if matches_keyword(&upper, &vec!['F', 'R', 'O', 'M']) {
        Some(SyntaxKind::FROM_INSTR)
    } else if matches_keyword(&upper, &vec!['R', 'U', 'N']) {
        Some(SyntaxKind::RUN_INSTR)
    } else if matches_keyword(&upper, &vec!['C', 'M', 'D']) {
        Some(SyntaxKind::CMD_INSTR)
    } else if matches_keyword(&upper, &vec!['L', 'A', 'B', 'E', 'L']) {
        Some(SyntaxKind::LABEL_INSTR)
    } else if matches_keyword(&upper, &vec!['M', 'A', 'I', 'N', 'T', 'A', 'I', 'N', 'E', 'R']) {
        Some(SyntaxKind::MAINTAINER_INSTR)
    } else if matches_keyword(&upper, &vec!['E', 'X', 'P', 'O', 'S', 'E']) {
        Some(SyntaxKind::EXPOSE_INSTR)
    } else if matches_keyword(&upper, &vec!['E', 'N', 'V']) {
        Some(SyntaxKind::ENV_INSTR)
    } else if matches_keyword(&upper, &vec!['A', 'D', 'D']) {
        Some(SyntaxKind::ADD_INSTR)
    } else if matches_keyword(&upper, &vec!['C', 'O', 'P', 'Y']) {
        Some(SyntaxKind::COPY_INSTR)
    } else if matches_keyword(&upper, &vec!['E', 'N', 'T', 'R', 'Y', 'P', 'O', 'I', 'N', 'T']) {
        Some(SyntaxKind::ENTRYPOINT_INSTR)
    } else if matches_keyword(&upper, &vec!['V', 'O', 'L', 'U', 'M', 'E']) {
        Some(SyntaxKind::VOLUME_INSTR)
    } else if matches_keyword(&upper, &vec!['U', 'S', 'E', 'R']) {
        Some(SyntaxKind::USER_INSTR)
    } else if matches_keyword(&upper, &vec!['W', 'O', 'R', 'K', 'D', 'I', 'R']) {
        Some(SyntaxKind::WORKDIR_INSTR)
    } else if matches_keyword(&upper, &vec!['A', 'R', 'G']) {
        Some(SyntaxKind::ARG_INSTR)
    } else if matches_keyword(&upper, &vec!['O', 'N', 'B', 'U', 'I', 'L', 'D']) {
        Some(SyntaxKind::ONBUILD_INSTR)
    } else if matches_keyword(&upper, &vec!['S', 'T', 'O', 'P', 'S', 'I', 'G', 'N', 'A', 'L']) {
        Some(SyntaxKind::STOPSIGNAL_INSTR)
    } else if matches_keyword(&upper, &vec!['H', 'E', 'A', 'L', 'T', 'H', 'C', 'H', 'E', 'C', 'K']) {
        Some(SyntaxKind::HEALTHCHECK_INSTR)
    } else if matches_keyword(&upper, &vec!['S', 'H', 'E', 'L', 'L']) {
        Some(SyntaxKind::SHELL_INSTR)
    } else {
        None
    };
    r
}


impl<'a> Parser<'a> {
    /// The bytes of the source.
    pub(crate) open spec fn bytes(&self) -> Seq<u8> {
        bytes_of(self.src)
    }

    /// The tokens of the source.
    pub(crate) open spec fn toks(&self) -> Seq<Token> {
        self.tokens@
    }

    /// The directive lines, in order.
    pub(crate) open spec fn directive_ranges(&self) -> Seq<TextRange> {
        self.directives@.map_values(|d: ParserDirective| d.range)
    }

    /// The tokens are those of the source, and the cursor is within them.
    pub(crate) open spec fn inv(&self) -> bool {
        &&& source_tokens(self.bytes(), self.escape, self.toks())
        &&& self.pos <= self.toks().len()
    }

    pub(crate) fn new(src: &'a str, escape: char, directives: Vec<ParserDirective>) -> (p: Parser<'a>)
        requires
            bytes_of(src).len() <= u32::MAX,
            escape == '\\' || escape == '`',
        ensures
            p.inv(),
            p.src == src,
            p.escape == crate::lexer::escape_byte(escape),
            p.pos == 0,
            p.events@.len() == 0,
            p.diagnostics@.len() == 0,
            p.directives@ == directives@,
    {
        let tokens: Vec<Token> = lex_with_escape(src, escape);
        let code: u8 = if escape == '\\' {
            92
        } else {
            96
        };
        proof {
            lemma_str_bytes(src);
            lemma_lex_boundaries(bytes_of(src), 0, code, true);
            lemma_lex_tiles(bytes_of(src), 0, code, true);
            reveal(source_tokens);
        }
        Parser {
            src,
            escape: code,
            tokens,
            pos: 0,
            events: Vec::new(),
            diagnostics: Vec::new(),
            directives,
        }
    }

    // ------------------------------------------------------------------
    // Token cursor helpers
    // ------------------------------------------------------------------

    fn is_eof(&self) -> (r: bool)
        ensures
            r == (self.pos >= self.toks().len()),
    {
        self.pos >= self.tokens.len()
    }

    /// The source text of a token of this source.
    fn token_text(&self, tok: Token) -> (r: &'a str)
        requires
            self.inv(),
            exists|i: int| 0 <= i < self.toks().len() && self.toks()[i] == tok,
        ensures
            bytes_of(r) == tok_bytes(self.bytes(), tok),
            r@ == tok_text(self.bytes(), tok),
    {
        proof {
            reveal(source_tokens);
        }
        tok.text(self.src)
    }

    /// Push the current token and advance.
    fn bump(&mut self)
        requires
            old(self).inv(),
            old(self).pos < old(self).toks().len(),
        ensures
            ran(
                *old(self),
                *final(self),
                old(self).pos + 1,
                seq![Event::Token(old(self).toks()[old(self).pos as int])],
                Seq::empty(),
            ),
    {
        let tok = self.tokens[self.pos];
        self.events.push(Event::Token(tok));
        assert(self.pos < self.tokens.len());
        self.pos = self.pos + 1;
        assert(self.events@ =~= old(self).events@ + seq![Event::Token(tok)]);
        assert(diag_views(self.diagnostics@) + Seq::<DiagView>::empty() =~= diag_views(self.diagnostics@));
    }

    /// Bump *non-newline* trivia (whitespace, comments, line continuations)
    /// without crossing a logical-line boundary.
    fn bump_intraline_trivia(&mut self)
        requires
            old(self).inv(),
        ensures
            ({
                let q = skip_intraline(old(self).toks(), old(self).pos as int);
                ran(*old(self), *final(self), q, tok_events(old(self).toks(), old(self).pos as int, q), Seq::empty())
            }),
    {
        let ghost p0 = self.pos as int;
        let ghost ev0 = self.events@;
        let ghost d0 = diag_views(self.diagnostics@);
        while self.pos < self.tokens.len() && (self.tokens[self.pos].kind == SyntaxKind::WHITESPACE
            || self.tokens[self.pos].kind == SyntaxKind::LINE_CONTINUATION
            || self.tokens[self.pos].kind == SyntaxKind::COMMENT)
            invariant
                self.inv(),
                frame(*old(self), *self),
                p0 == old(self).pos,
                ev0 == old(self).events@,
                d0 == diag_views(old(self).diagnostics@),
                p0 <= self.pos,
                skip_intraline(self.toks(), self.pos as int) == skip_intraline(self.toks(), p0),
                self.events@ == ev0 + tok_events(self.toks(), p0, self.pos as int),
                diag_views(self.diagnostics@) == d0,
            decreases self.toks().len() - self.pos,
        {
            proof {
                lemma_tok_events_push(self.toks(), p0, self.pos as int);
            }
            self.bump();
        }
        assert(d0 + Seq::<DiagView>::empty() =~= d0);
    }

    /// Bump everything up to (but not including) the next newline.
    fn bump_to_newline(&mut self)
        requires
            old(self).inv(),
        ensures
            ({
                let q = line_stop(old(self).toks(), old(self).pos as int);
                ran(*old(self), *final(self), q, tok_events(old(self).toks(), old(self).pos as int, q), Seq::empty())
            }),
    {
        let ghost p0 = self.pos as int;
        let ghost ev0 = self.events@;
        let ghost d0 = diag_views(self.diagnostics@);
        while self.pos < self.tokens.len() && self.tokens[self.pos].kind != SyntaxKind::NEWLINE
            invariant
                self.inv(),
                frame(*old(self), *self),
                p0 == old(self).pos,
                ev0 == old(self).events@,
                d0 == diag_views(old(self).diagnostics@),
                p0 <= self.pos,
                line_stop(self.toks(), self.pos as int) == line_stop(self.toks(), p0),
                self.events@ == ev0 + tok_events(self.toks(), p0, self.pos as int),
                diag_views(self.diagnostics@) == d0,
            decreases self.toks().len() - self.pos,
        {
            proof {
                lemma_tok_events_push(self.toks(), p0, self.pos as int);
            }
            self.bump();
        }
        assert(d0 + Seq::<DiagView>::empty() =~= d0);
    }

    /// Recovery: bump everything to (but not including) the next newline as
    /// children of a node of `kind`.
    fn recover_to_newline(&mut self, kind: SyntaxKind)
        requires
            old(self).inv(),
        ensures
            ({
                let (q, e) = wrap_line(kind, old(self).toks(), old(self).pos as int);
                ran(*old(self), *final(self), q, e, Seq::empty())
            }),
    {
        self.events.push(Event::Start(kind));
        self.bump_to_newline();
        self.events.push(Event::Finish);
        proof {
            let q = line_stop(old(self).toks(), old(self).pos as int);
            assert(self.events@ =~= old(self).events@ + wrapped(kind, tok_events(old(self).toks(), old(self).pos as int, q)));
        }
    }

    fn push_diagnostic(&mut self, d: Diagnostic)
        requires
            old(self).inv(),
        ensures
            ran(*old(self), *final(self), old(self).pos as int, Seq::empty(), seq![diag_view(d)]),
    {
        self.diagnostics.push(d);
        assert(diag_views(self.diagnostics@) =~= diag_views(old(self).diagnostics@) + seq![diag_view(d)]);
        assert(self.events@ =~= old(self).events@ + Seq::<Event>::empty());
    }

    fn tail_range_at_pos(&self) -> (r: TextRange)
        ensures
            r == tail_range(self.toks(), self.pos as int),
    {
        if self.pos < self.tokens.len() {
            self.tokens[self.pos].range
        } else if self.tokens.len() > 0 {
            self.tokens[self.tokens.len() - 1].range
        } else {
            TextRange::new(0, 0)
        }
    }
}

impl<'a> Parser<'a> {
    /// The tokens of this source lie within it.
    proof fn lemma_token_in_source(&self, i: int)
        requires
            self.inv(),
            0 <= i < self.toks().len(),
        ensures
            self.toks()[i].range.start <= self.toks()[i].range.end <= self.bytes().len(),
            self.bytes().len() <= u32::MAX,
    {
        reveal(source_tokens);
    }

    /// Emit the `name`, `=` and value parts of the `WORD` at the cursor,
    /// whose first `=` is at byte offset `eq`; a string right after a word
    /// that ends in `=` is the value.
    fn push_split_pair(&mut self, eq: usize)
        requires
            old(self).inv(),
            word_at(old(self).toks(), old(self).pos as int),
            ({
                let t = old(self).toks()[old(self).pos as int];
                byte_index(tok_bytes(old(self).bytes(), t), 61, 0) == Some(eq - t.range.start)
                    && t.range.start <= eq < t.range.end
            }),
        ensures
            ({
                let t = old(self).toks()[old(self).pos as int];
                let (q, e) = split_pair(old(self).toks(), old(self).pos as int, eq - t.range.start);
                ran(*old(self), *final(self), q, e, Seq::empty())
            }),
    {
        let tok = self.tokens[self.pos];
        proof {
            self.lemma_token_in_source(self.pos as int);
        }
        let start = tok.range.start;
        let end = tok.range.end;
        let eq32 = eq as u32;
        let ghost k = eq - start;
        self.events.push(Event::Token(Token { kind: SyntaxKind::WORD, range: TextRange::new(start, eq32) }));
        self.events.push(Event::Token(Token { kind: SyntaxKind::EQUALS, range: TextRange::new(eq32, eq32 + 1) }));
        if eq32 + 1 < end {
            self.events.push(Event::Token(Token { kind: SyntaxKind::WORD, range: TextRange::new(eq32 + 1, end) }));
        }
        proof {
            assert(self.events@ =~= old(self).events@ + split_events(tok, k));
        }
        assert(self.pos < self.tokens.len());
        self.pos = self.pos + 1;
        assert(diag_views(self.diagnostics@) + Seq::<DiagView>::empty() =~= diag_views(self.diagnostics@));
        if self.pos < self.tokens.len() && self.tokens[self.pos].kind == SyntaxKind::STRING && eq32 == end - 1 {
            self.bump();
            assert(self.events@ =~= old(self).events@ + (split_events(tok, k) + seq![Event::Token(self.toks()[old(self).pos + 1])]));
        }
    }

    /// Parse a `--flag` or `--flag=value` argument as a `FLAG` node.
    fn parse_flag(&mut self)
        requires
            old(self).inv(),
            word_at(old(self).toks(), old(self).pos as int),
        ensures
            ({
                let (q, e) = flag_events(old(self).bytes(), old(self).toks(), old(self).pos as int);
                ran(*old(self), *final(self), q, e, Seq::empty())
            }),
    {
        let tok = self.tokens[self.pos];
        proof {
            self.lemma_token_in_source(self.pos as int);
        }
        let bytes = self.src.as_bytes();
        proof {
            lemma_byte_index(tok_bytes(self.bytes(), tok), 61, 0);
        }
        self.events.push(Event::Start(SyntaxKind::FLAG));
        let ghost mid = *self;
        match find_byte(bytes, tok.range.start as usize, tok.range.end as usize, 61) {
            Some(eq) => {
                self.push_split_pair(eq);
            },
            None => {
                self.bump();
            },
        }
        self.events.push(Event::Finish);
        proof {
            let (q, e) = flag_events(old(self).bytes(), old(self).toks(), old(self).pos as int);
            assert(self.events@ =~= old(self).events@ + e);
        }
    }

    /// Parse a single `key=value` (or just `key`) pair as a `KEY_VALUE` node.
    /// The lexer hands over the whole `key=value` as a single `WORD`, which is
    /// split here; a bare key takes the rest of the line as its value
    /// (legacy `ENV KEY VALUE`).
    fn parse_kv_pair(&mut self)
        requires
            old(self).inv(),
            word_at(old(self).toks(), old(self).pos as int),
        ensures
            ({
                let (q, e) = kv_pair_events(old(self).bytes(), old(self).toks(), old(self).pos as int);
                ran(*old(self), *final(self), q, e, Seq::empty())
            }),
    {
        let tok = self.tokens[self.pos];
        proof {
            self.lemma_token_in_source(self.pos as int);
        }
        let bytes = self.src.as_bytes();
        proof {
            lemma_byte_index(tok_bytes(self.bytes(), tok), 61, 0);
        }
        self.events.push(Event::Start(SyntaxKind::KEY_VALUE));
        match find_byte(bytes, tok.range.start as usize, tok.range.end as usize, 61) {
            Some(eq) => {
                self.push_split_pair(eq);
            },
            None => {
                let ghost p0 = self.pos as int;
                self.bump();
                let ghost p1 = self.pos as int;
                self.bump_intraline_trivia();
                let ghost p2 = self.pos as int;
                self.bump_to_newline();
                proof {
                    let toks = self.toks();
                    lemma_skip_intraline(toks, p1);
                    lemma_line_stop_skip(toks, p1);
                    lemma_line_stop(toks, p1);
                    lemma_tok_events_concat(toks, p1, p2, self.pos as int);
                    lemma_tok_events_concat(toks, p0, p1, self.pos as int);
                    assert(tok_events(toks, p0, p1) =~= seq![Event::Token(toks[p0])]);
                }
            },
        }
        self.events.push(Event::Finish);
        proof {
            let (q, e) = kv_pair_events(old(self).bytes(), old(self).toks(), old(self).pos as int);
            assert(self.events@ =~= old(self).events@ + e);
        }
    }

    /// Generic body parser: bump everything up to (but not including) the
    /// next `NEWLINE` token, flags as `FLAG` nodes. `LINE_CONTINUATION`
    /// tokens are *not* line terminators.
    fn parse_generic_body(&mut self)
        requires
            old(self).inv(),
        ensures
            ({
                let (q, e) = generic_body(old(self).bytes(), old(self).toks(), old(self).pos as int);
                ran(*old(self), *final(self), q, e, Seq::empty())
            }),
    {
        let ghost b = self.bytes();
        let ghost toks = self.toks();
        let ghost total = generic_body(b, toks, self.pos as int);
        let ghost ev0 = self.events@;
        proof {
            assert(ev0 + total.1 =~= self.events@ + generic_body(b, toks, self.pos as int).1);
        }
        while self.pos < self.tokens.len() && self.tokens[self.pos].kind != SyntaxKind::NEWLINE
            invariant
                self.inv(),
                frame(*old(self), *self),
                b == self.bytes(),
                toks == self.toks(),
                ev0 == old(self).events@,
                total == generic_body(b, toks, old(self).pos as int),
                generic_body(b, toks, self.pos as int).0 == total.0,
                ev0 + total.1 == self.events@ + generic_body(b, toks, self.pos as int).1,
                diag_views(self.diagnostics@) == diag_views(old(self).diagnostics@),
            decreases toks.len() - self.pos,
        {
            let ghost before = self.events@;
            let ghost p = self.pos as int;
            let tok = self.tokens[self.pos];
            let is_flag = tok.kind == SyntaxKind::WORD && is_flag_word(self.token_text(tok));
            if is_flag {
                self.parse_flag();
                proof {
                    let (q, f) = flag_events(b, toks, p);
                    assert(before + generic_body(b, toks, p).1 =~= self.events@ + generic_body(b, toks, q).1);
                }
            } else {
                self.bump();
                proof {
                    assert(before + generic_body(b, toks, p).1 =~= self.events@ + generic_body(b, toks, p + 1).1);
                }
            }
        }
        proof {
            assert(ev0 + total.1 =~= self.events@ + Seq::<Event>::empty());
            assert(diag_views(self.diagnostics@) + Seq::<DiagView>::empty() =~= diag_views(self.diagnostics@));
        }
    }

    /// Leading flags, each after optional intraline trivia.
    fn parse_flags(&mut self)
        requires
            old(self).inv(),
        ensures
            ({
                let (q, e) = flags(old(self).bytes(), old(self).toks(), old(self).pos as int);
                ran(*old(self), *final(self), q, e, Seq::empty())
            }),
    {
        let ghost b = self.bytes();
        let ghost toks = self.toks();
        let ghost total = flags(b, toks, self.pos as int);
        let ghost ev0 = self.events@;
        proof {
            assert(ev0 + total.1 =~= self.events@ + flags(b, toks, self.pos as int).1);
        }
        loop
            invariant_except_break
                self.inv(),
                frame(*old(self), *self),
                b == self.bytes(),
                toks == self.toks(),
                ev0 == old(self).events@,
                total == flags(b, toks, old(self).pos as int),
                flags(b, toks, self.pos as int).0 == total.0,
                ev0 + total.1 == self.events@ + flags(b, toks, self.pos as int).1,
                diag_views(self.diagnostics@) == diag_views(old(self).diagnostics@),
            ensures
                self.inv(),
                frame(*old(self), *self),
                self.pos == total.0,
                self.events@ == ev0 + total.1,
                diag_views(self.diagnostics@) == diag_views(old(self).diagnostics@),
            decreases toks.len() - self.pos,
        {
            let ghost p = self.pos as int;
            let ghost before = self.events@;
            self.bump_intraline_trivia();
            let ghost i = self.pos as int;
            proof {
                lemma_skip_intraline(toks, p);
            }
            let is_flag = self.pos < self.tokens.len() && self.tokens[self.pos].kind
                == SyntaxKind::WORD && is_flag_word(self.token_text(self.tokens[self.pos]));
            if is_flag {
                self.parse_flag();
                proof {
                    lemma_flag_events(b, toks, i);
                    let (q, f) = flag_events(b, toks, i);
                    assert(before + flags(b, toks, p).1 =~= self.events@ + flags(b, toks, q).1);
                }
            } else {
                proof {
                    assert(before + flags(b, toks, p).1 =~= self.events@);
                }
                break;
            }
        }
        proof {
            assert(diag_views(self.diagnostics@) + Seq::<DiagView>::empty() =~= diag_views(self.diagnostics@));
        }
    }
}

impl<'a> Parser<'a> {
    /// Wrap the rest of the logical line in an `EXEC_FORM` node.
    fn parse_exec_form(&mut self)
        requires
            old(self).inv(),
        ensures
            ({
                let (q, e) = wrap_line(SyntaxKind::EXEC_FORM, old(self).toks(), old(self).pos as int);
                ran(*old(self), *final(self), q, e, Seq::empty())
            }),
    {
        self.recover_to_newline(SyntaxKind::EXEC_FORM);
    }

    /// Wrap the rest of the logical line in a `SHELL_FORM` node.
    fn parse_shell_form(&mut self)
        requires
            old(self).inv(),
        ensures
            ({
                let (q, e) = wrap_line(SyntaxKind::SHELL_FORM, old(self).toks(), old(self).pos as int);
                ran(*old(self), *final(self), q, e, Seq::empty())
            }),
    {
        self.recover_to_newline(SyntaxKind::SHELL_FORM);
    }

    /// `FROM [--platform=<p>] <image>[:<tag>][@<digest>] [AS <name>]`
    fn parse_from_body(&mut self)
        requires
            old(self).inv(),
        ensures
            ({
                let (q, e, d) = from_body(old(self).bytes(), old(self).toks(), old(self).pos as int);
                ran(*old(self), *final(self), q, e, d)
            }),
    {
        let ghost b = self.bytes();
        let ghost toks = self.toks();
        let ghost d0 = diag_views(self.diagnostics@);
        // Optional flags.
        self.parse_flags();
        let ghost p1 = self.pos as int;
        let ghost v1 = self.events@;
        // Image reference.
        self.bump_intraline_trivia();
        let ghost p2 = self.pos as int;
        let ghost v2 = self.events@;
        if self.pos < self.tokens.len() && self.tokens[self.pos].kind != SyntaxKind::NEWLINE {
            self.events.push(Event::Start(SyntaxKind::IMAGE_REF));
            self.bump();
            self.events.push(Event::Finish);
        }
        let ghost p3 = self.pos as int;
        let ghost v3 = self.events@;
        proof {
            if on_line(toks, p2) {
                assert(v3 =~= v2 + wrapped(SyntaxKind::IMAGE_REF, seq![Event::Token(toks[p2])]));
            } else {
                assert(v3 =~= v2 + Seq::<Event>::empty());
            }
        }
        // Optional `AS <name>` clause.
        self.bump_intraline_trivia();
        let ghost p4 = self.pos as int;
        let ghost v4 = self.events@;
        self.parse_stage_clause();
        let ghost p5 = self.pos as int;
        let ghost v5 = self.events@;
        let ghost d5 = diag_views(self.diagnostics@);
        // Anything trailing up to newline: bump as-is.
        self.parse_generic_body();
        proof {
            let (q, e, d) = from_body(b, toks, old(self).pos as int);
            assert(self.events@ =~= old(self).events@ + e);
        }
    }

    /// The optional `AS <name>` clause of `FROM`.
    fn parse_stage_clause(&mut self)
        requires
            old(self).inv(),
        ensures
            ({
                let (q, e, d) = stage_clause(old(self).bytes(), old(self).toks(), old(self).pos as int);
                ran(*old(self), *final(self), q, e, d)
            }),
    {
        let ghost toks = self.toks();
        let ghost p4 = self.pos as int;
        let ghost v4 = self.events@;
        let is_as = self.pos < self.tokens.len() && self.tokens[self.pos].kind == SyntaxKind::WORD
            && is_as_keyword(self.token_text(self.tokens[self.pos]));
        if is_as {
            // Bump the `AS` keyword.
            self.bump();
            self.bump_intraline_trivia();
            let ghost n = self.pos as int;
            let ghost vn = self.events@;
            proof {
                lemma_skip_intraline(toks, p4 + 1);
                lemma_tok_events_concat(toks, p4, p4 + 1, n);
                assert(tok_events(toks, p4, p4 + 1) =~= seq![Event::Token(toks[p4])]);
                assert(vn =~= v4 + (seq![Event::Token(toks[p4])] + tok_events(toks, p4 + 1, n)));
            }
            if self.pos < self.tokens.len() && self.tokens[self.pos].kind != SyntaxKind::NEWLINE {
                self.events.push(Event::Start(SyntaxKind::STAGE_NAME));
                self.bump();
                self.events.push(Event::Finish);
                proof {
                    assert(self.events@ =~= vn + wrapped(SyntaxKind::STAGE_NAME, seq![Event::Token(toks[n])]));
                    assert(self.events@ =~= v4 + ((seq![Event::Token(toks[p4])] + tok_events(toks, p4 + 1, n)) + wrapped(SyntaxKind::STAGE_NAME, seq![Event::Token(toks[n])])));
                    assert(diag_views(self.diagnostics@) =~= diag_views(old(self).diagnostics@) + Seq::<DiagView>::empty());
                }
            } else {
                let range = self.tail_range_at_pos();
                let d = Diagnostic::error(String::from_str("expected stage name after `AS`"), range).with_code("DF010");
                self.push_diagnostic(d);
                proof {
                    assert(self.events@ =~= vn + Seq::<Event>::empty());
                }
            }
        } else {
            proof {
                assert(self.events@ =~= v4 + Seq::<Event>::empty());
                assert(diag_views(self.diagnostics@) =~= diag_views(self.diagnostics@) + Seq::<DiagView>::empty());
            }
        }
    }

    /// `ENV key=value ...` or legacy `ENV key value` (single pair);
    /// `LABEL key=value ...`.
    fn parse_kv_body(&mut self)
        requires
            old(self).inv(),
        ensures
            ({
                let (q, e) = kv_body(old(self).bytes(), old(self).toks(), old(self).pos as int);
                ran(*old(self), *final(self), q, e, Seq::empty())
            }),
    {
        let ghost b = self.bytes();
        let ghost toks = self.toks();
        let ghost total = kv_body(b, toks, self.pos as int);
        let ghost ev0 = self.events@;
        proof {
            assert(ev0 + total.1 =~= self.events@ + kv_body(b, toks, self.pos as int).1);
        }
        loop
            invariant_except_break
                self.inv(),
                frame(*old(self), *self),
                b == self.bytes(),
                toks == self.toks(),
                ev0 == old(self).events@,
                total == kv_body(b, toks, old(self).pos as int),
                kv_body(b, toks, self.pos as int).0 == total.0,
                ev0 + total.1 == self.events@ + kv_body(b, toks, self.pos as int).1,
                diag_views(self.diagnostics@) == diag_views(old(self).diagnostics@),
            ensures
                self.inv(),
                frame(*old(self), *self),
                self.pos == total.0,
                self.events@ == ev0 + total.1,
                diag_views(self.diagnostics@) == diag_views(old(self).diagnostics@),
            decreases toks.len() - self.pos,
        {
            let ghost p = self.pos as int;
            let ghost before = self.events@;
            self.bump_intraline_trivia();
            let ghost i = self.pos as int;
            proof {
                lemma_skip_intraline(toks, p);
            }
            if self.pos >= self.tokens.len() || self.tokens[self.pos].kind == SyntaxKind::NEWLINE {
                proof {
                    assert(before + kv_body(b, toks, p).1 =~= self.events@);
                }
                break;
            }
            if self.tokens[self.pos].kind == SyntaxKind::WORD {
                self.parse_kv_pair();
                proof {
                    lemma_kv_pair_events(b, toks, i);
                    let (q, e) = kv_pair_events(b, toks, i);
                    assert(before + kv_body(b, toks, p).1 =~= self.events@ + kv_body(b, toks, q).1);
                }
            } else {
                self.bump();
                proof {
                    assert(before + kv_body(b, toks, p).1 =~= self.events@ + kv_body(b, toks, i + 1).1);
                }
            }
        }
        proof {
            assert(diag_views(self.diagnostics@) + Seq::<DiagView>::empty() =~= diag_views(self.diagnostics@));
        }
    }

    /// `ARG name[=default]`. Only one argument per ARG instruction.
    fn parse_arg_body(&mut self)
        requires
            old(self).inv(),
        ensures
            ({
                let (q, e) = arg_body(old(self).bytes(), old(self).toks(), old(self).pos as int);
                ran(*old(self), *final(self), q, e, Seq::empty())
            }),
    {
        let ghost b = self.bytes();
        let ghost toks = self.toks();
        self.bump_intraline_trivia();
        let ghost v1 = self.events@;
        let ghost i = self.pos as int;
        if self.pos < self.tokens.len() && self.tokens[self.pos].kind == SyntaxKind::WORD {
            self.parse_kv_pair();
        } else {
            assert(self.events@ =~= v1 + Seq::<Event>::empty());
        }
        self.parse_generic_body();
        proof {
            let (q, e) = arg_body(b, toks, old(self).pos as int);
            assert(self.events@ =~= old(self).events@ + e);
            assert(diag_views(self.diagnostics@) + Seq::<DiagView>::empty() =~= diag_views(self.diagnostics@));
        }
    }

    /// Peek the next *non-trivia* token, past newlines too, without
    /// advancing the cursor.
    fn peek_significant(&self) -> (r: Option<Token>)
        requires
            self.inv(),
        ensures
            ({
                let s = next_significant(self.toks(), self.pos as int);
                r == if s < self.toks().len() {
                    Some(self.toks()[s])
                } else {
                    None
                }
            }),
    {
        let mut idx = self.pos;
        while idx < self.tokens.len() && self.tokens[idx].kind.is_trivia()
            invariant
                self.pos <= idx <= self.toks().len(),
                next_significant(self.toks(), idx as int) == next_significant(
                    self.toks(),
                    self.pos as int,
                ),
            decreases self.toks().len() - idx,
        {
            idx += 1;
        }
        if idx < self.tokens.len() {
            Some(self.tokens[idx])
        } else {
            None
        }
    }

    /// Whether the next significant token, past newlines too, is a `WORD`
    /// opening an exec-form array (`[`).
    fn exec_form_ahead(&self) -> (r: bool)
        requires
            self.inv(),
        ensures
            r == exec_form_ahead(self.bytes(), self.toks(), self.pos as int),
    {
        proof {
            lemma_next_significant(self.toks(), self.pos as int);
        }
        match self.peek_significant() {
            Some(tok) => {
                proof {
                    let s = next_significant(self.toks(), self.pos as int);
                    assert(self.toks()[s] == tok);
                }
                tok.kind == SyntaxKind::WORD && starts_with_bracket(self.token_text(tok))
            },
            None => false,
        }
    }

    /// Whether the token at the cursor is a `WORD` opening an exec-form array
    /// (`[`), and whether it starts a body at all (it is not a newline).
    fn body_ahead(&self) -> (r: (bool, bool))
        requires
            self.inv(),
        ensures
            r.0 == exec_form_at(self.bytes(), self.toks(), self.pos as int),
            r.1 == body_at(self.toks(), self.pos as int),
    {
        if self.pos < self.tokens.len() {
            let tok = self.tokens[self.pos];
            (tok.kind == SyntaxKind::WORD && starts_with_bracket(self.token_text(tok)), tok.kind
                != SyntaxKind::NEWLINE)
        } else {
            (false, false)
        }
    }

    /// `RUN`/`CMD`/`ENTRYPOINT` body. Recognizes flags, then either an
    /// exec-form JSON array or a shell-form free-text body.
    fn parse_runlike_body(&mut self)
        requires
            old(self).inv(),
        ensures
            ({
                let (q, e, d) = runlike_body(old(self).bytes(), old(self).toks(), old(self).pos as int);
                ran(*old(self), *final(self), q, e, d)
            }),
    {
        let ghost b = self.bytes();
        let ghost toks = self.toks();
        self.parse_flags();
        self.bump_intraline_trivia();
        let ghost v2 = self.events@;
        let (exec, any) = self.body_ahead();
        if exec {
            self.parse_exec_form();
        } else if any {
            self.parse_shell_form();
        } else {
            // Nothing else on the line: the instruction has no body.
            let range = self.tail_range_at_pos();
            let d = Diagnostic::warning(String::from_str("instruction has no body"), range).with_code("DF020");
            self.push_diagnostic(d);
        }
        proof {
            let (q, e, d) = runlike_body(b, toks, old(self).pos as int);
            assert(self.events@ =~= old(self).events@ + e);
            assert(diag_views(self.diagnostics@) =~= diag_views(old(self).diagnostics@) + d);
        }
    }

    /// `COPY`/`ADD` body: flags + sources + dest; the exec-form-style array
    /// (`COPY ["a", "b"]`) is supported too. The array form is chosen by the
    /// next significant token even when it lies on a later line; the form's
    /// node then holds only what is left of the current line.
    fn parse_copy_body(&mut self)
        requires
            old(self).inv(),
        ensures
            ({
                let (q, e) = copy_body(old(self).bytes(), old(self).toks(), old(self).pos as int);
                ran(*old(self), *final(self), q, e, Seq::empty())
            }),
    {
        let ghost b = self.bytes();
        let ghost toks = self.toks();
        self.parse_flags();
        self.bump_intraline_trivia();
        if self.exec_form_ahead() {
            self.parse_exec_form();
        } else {
            self.parse_generic_body();
        }
        proof {
            let (q, e) = copy_body(b, toks, old(self).pos as int);
            assert(self.events@ =~= old(self).events@ + e);
            assert(diag_views(self.diagnostics@) + Seq::<DiagView>::empty() =~= diag_views(self.diagnostics@));
        }
    }

    /// An instruction whose keyword `WORD` is at the cursor: the keyword
    /// decides the node kind (unknown keywords give an `INSTRUCTION` node and
    /// a warning) and the body parser.
    fn parse_instruction(&mut self)
        requires
            old(self).inv(),
            word_at(old(self).toks(), old(self).pos as int),
        ensures
            ({
                let (q, e, d) = instruction(old(self).bytes(), old(self).toks(), old(self).pos as int);
                ran(*old(self), *final(self), q, e, d)
            }),
    {
        let ghost b = self.bytes();
        let ghost toks = self.toks();
        let keyword_tok = self.tokens[self.pos];
        let text = self.token_text(keyword_tok);
        let kind = recognize_instruction(text);
        let node_kind = match kind {
            Some(k) => k,
            None => SyntaxKind::INSTRUCTION,
        };
        if kind.is_none() {
            let mut message = String::from_str("unknown Dockerfile instruction: ");
            let quoted = debug_quoted(text);
            message.append(quoted.as_str());
            let d = Diagnostic::warning(message, keyword_tok.range).with_code("DF001");
            self.push_diagnostic(d);
        } else {
            assert(diag_views(self.diagnostics@) =~= diag_views(self.diagnostics@) + Seq::<DiagView>::empty());
        }
        let ghost v0 = self.events@;
        let ghost dd = diag_views(self.diagnostics@);
        self.events.push(Event::Start(node_kind));
        self.bump();
        let ghost v1 = self.events@;
        let ghost p1 = self.pos as int;
        match node_kind {
            SyntaxKind::FROM_INSTR => self.parse_from_body(),
            SyntaxKind::ENV_INSTR | SyntaxKind::LABEL_INSTR => self.parse_kv_body(),
            SyntaxKind::ARG_INSTR => self.parse_arg_body(),
            SyntaxKind::RUN_INSTR | SyntaxKind::CMD_INSTR | SyntaxKind::ENTRYPOINT_INSTR => {
                self.parse_runlike_body();
            },
            SyntaxKind::COPY_INSTR | SyntaxKind::ADD_INSTR => self.parse_copy_body(),
            _ => self.parse_generic_body(),
        }
        self.events.push(Event::Finish);
        proof {
            let (q, body, d1) = body_events(node_kind, b, toks, p1);
            assert(self.events@ =~= v1 + body + seq![Event::Finish]);
            assert(self.events@ =~= old(self).events@ + wrapped(node_kind, seq![Event::Token(keyword_tok)] + body));
            let (q2, e2, d2) = instruction(b, toks, old(self).pos as int);
            assert(diag_views(self.diagnostics@) =~= diag_views(old(self).diagnostics@) + d2);
        }
    }

    /// One top-level item: a trivia token, an instruction, or a stray
    /// significant token (e.g. a `[`), whose logical line is wrapped as a
    /// generic `INSTRUCTION` node with a diagnostic so consumers can still
    /// see the bytes.
    fn parse_top_level_item(&mut self)
        requires
            old(self).inv(),
            old(self).pos < old(self).toks().len(),
        ensures
            ({
                let (q, e, d) = top_item(old(self).bytes(), old(self).toks(), old(self).pos as int);
                ran(*old(self), *final(self), q, e, d)
            }),
    {
        let tok = self.tokens[self.pos];
        if tok.kind.is_trivia() {
            self.bump();
            return;
        }
        if tok.kind == SyntaxKind::WORD {
            self.parse_instruction();
            return;
        }
        let text = self.token_text(tok);
        let mut message = String::from_str("unexpected token at top level: ");
        let quoted = debug_quoted(text);
        message.append(quoted.as_str());
        let d = Diagnostic::error(message, tok.range).with_code("DF000");
        self.push_diagnostic(d);
        let ghost v = self.events@;
        self.recover_to_newline(SyntaxKind::INSTRUCTION);
        proof {
            let (q, e, dd) = top_item(self.bytes(), self.toks(), old(self).pos as int);
            assert(self.events@ =~= old(self).events@ + e);
            assert(diag_views(self.diagnostics@) =~= diag_views(old(self).diagnostics@) + dd);
        }
    }
}

impl<'a> Parser<'a> {
    /// Leading directive block: wrap the `COMMENT` token of each directive
    /// found by the pre-pass in a `PARSER_DIRECTIVE` node, bumping the
    /// tokens before it.
    fn parse_directive_block(&mut self)
        requires
            old(self).inv(),
        ensures
            ({
                let (q, e) = directive_block(old(self).toks(), old(self).pos as int, old(self).directive_ranges(), 0);
                ran(*old(self), *final(self), q, e, Seq::empty())
            }),
    {
        let ghost toks = self.toks();
        let ghost rs = self.directive_ranges();
        let ghost total = directive_block(toks, self.pos as int, rs, 0);
        let ghost ev0 = self.events@;
        proof {
            assert(diag_views(self.diagnostics@) + Seq::<DiagView>::empty() =~= diag_views(self.diagnostics@));
        }
        if self.directives.len() == 0 {
            assert(self.events@ =~= ev0 + Seq::<Event>::empty());
            return;
        }
        let n = self.directives.len();
        let mut i: usize = 0;
        proof {
            assert(ev0 + total.1 =~= self.events@ + directive_block(toks, self.pos as int, rs, 0).1);
        }
        loop
            invariant
                self.inv(),
                frame(*old(self), *self),
                toks == self.toks(),
                rs == self.directive_ranges(),
                n == rs.len(),
                i < n,
                ev0 == old(self).events@,
                total == directive_block(toks, old(self).pos as int, rs, 0),
                directive_block(toks, self.pos as int, rs, i as int).0 == total.0,
                ev0 + total.1 == self.events@ + directive_block(toks, self.pos as int, rs, i as int).1,
                diag_views(self.diagnostics@) == diag_views(old(self).diagnostics@),
            decreases n - i,
        {
            let range = self.directives[i].range;
            assert(range == rs[i as int]);
            let ghost pi = self.pos as int;
            let ghost vi = self.events@;
            let ghost seek = seek_directive(toks, pi, range);
            proof {
                assert(vi + seek.1 =~= self.events@ + seek_directive(toks, self.pos as int, range).1);
            }
            // Bump tokens until the COMMENT covering this directive.
            loop
                invariant_except_break
                    self.inv(),
                    frame(*old(self), *self),
                    toks == self.toks(),
                    rs == self.directive_ranges(),
                    n == rs.len(),
                    i < n,
                    range == rs[i as int],
                    ev0 == old(self).events@,
                    total == directive_block(toks, old(self).pos as int, rs, 0),
                    directive_block(toks, pi, rs, i as int).0 == total.0,
                    ev0 + total.1 == vi + directive_block(toks, pi, rs, i as int).1,
                    seek == seek_directive(toks, pi, range),
                    seek_directive(toks, self.pos as int, range).0 == seek.0,
                    seek_directive(toks, self.pos as int, range).2 == seek.2,
                    vi + seek.1 == self.events@ + seek_directive(toks, self.pos as int, range).1,
                    diag_views(self.diagnostics@) == diag_views(old(self).diagnostics@),
                ensures
                    self.inv(),
                    frame(*old(self), *self),
                    toks == self.toks(),
                    seek.2 != 1,
                    self.pos == seek.0,
                    self.events@ == vi + seek.1,
                    diag_views(self.diagnostics@) == diag_views(old(self).diagnostics@),
                decreases toks.len() - self.pos,
            {
                let ghost pp = self.pos as int;
                let ghost vv = self.events@;
                if self.pos >= self.tokens.len() {
                    assert(self.events@ =~= self.events@ + seek_directive(toks, pp, range).1);
                    break;
                }
                let tok = self.tokens[self.pos];
                if tok.kind == SyntaxKind::COMMENT && tok.range == range {
                    self.events.push(Event::Start(SyntaxKind::PARSER_DIRECTIVE));
                    self.bump();
                    self.events.push(Event::Finish);
                    proof {
                        assert(self.events@ =~= vv + seek_directive(toks, pp, range).1);
                    }
                    break;
                }
                if tok.kind == SyntaxKind::COMMENT {
                    // A different comment: the directives are contiguous, so
                    // this only happens on malformed input; stop here.
                    proof {
                        assert(self.events@ =~= vv + seek_directive(toks, pp, range).1);
                        assert(directive_block(toks, pi, rs, i as int) == (seek.0, seek.1));
                        assert(self.events@ =~= old(self).events@ + total.1);
                    }
                    return;
                }
                self.bump();
                proof {
                    assert(vv + seek_directive(toks, pp, range).1 =~= self.events@ + seek_directive(toks, self.pos as int, range).1);
                }
            }
            if i == n - 1 {
                proof {
                    assert(directive_block(toks, pi, rs, i as int) == (seek.0, seek.1));
                    assert(self.events@ =~= old(self).events@ + total.1);
                }
                return;
            }
            proof {
                let (r2, rest) = directive_block(toks, seek.0, rs, i + 1);
                assert(directive_block(toks, pi, rs, i as int) == (r2, seek.1 + rest));
                assert(vi + (seek.1 + rest) =~= self.events@ + rest);
            }
            i += 1;
        }
    }

    /// Parse the whole file: a `DOCKERFILE` node holding the directive block
    /// and then every top-level item. Returns the events and diagnostics.
    pub(crate) fn parse(self) -> (r: (Vec<Event>, Vec<Diagnostic>))
        requires
            self.inv(),
            self.pos == 0,
            self.events@.len() == 0,
            self.diagnostics@.len() == 0,
        ensures
            (r.0@, diag_views(r.1@)) == file_events(self.bytes(), self.toks(), self.directive_ranges()),
    {
        let mut parser = self;
        let ghost b = parser.bytes();
        let ghost toks = parser.toks();
        let ghost rs = parser.directive_ranges();
        parser.events.push(Event::Start(SyntaxKind::DOCKERFILE));
        parser.parse_directive_block();
        let ghost v1 = parser.events@;
        let ghost p1 = parser.pos as int;
        let ghost total = top_level(b, toks, p1);
        proof {
            assert(v1 + total.0 =~= parser.events@ + top_level(b, toks, parser.pos as int).0);
            assert(diag_views(parser.diagnostics@) =~= Seq::<DiagView>::empty());
            assert(total.1 =~= diag_views(parser.diagnostics@) + top_level(b, toks, parser.pos as int).1);
        }
        while !parser.is_eof()
            invariant
                parser.inv(),
                b == parser.bytes(),
                toks == parser.toks(),
                total == top_level(b, toks, p1),
                v1 + total.0 == parser.events@ + top_level(b, toks, parser.pos as int).0,
                total.1 == diag_views(parser.diagnostics@) + top_level(b, toks, parser.pos as int).1,
            decreases toks.len() - parser.pos,
        {
            let ghost p = parser.pos as int;
            let ghost vv = parser.events@;
            let ghost dd = diag_views(parser.diagnostics@);
            parser.parse_top_level_item();
            proof {
                lemma_top_item(b, toks, p);
                let (q, e, d) = top_item(b, toks, p);
                assert(vv + top_level(b, toks, p).0 =~= parser.events@ + top_level(b, toks, q).0);
                assert(dd + top_level(b, toks, p).1 =~= diag_views(parser.diagnostics@) + top_level(b, toks, q).1);
            }
        }
        parser.events.push(Event::Finish);
        proof {
            assert(parser.events@ =~= wrapped(SyntaxKind::DOCKERFILE, directive_block(toks, 0, rs, 0).1 + total.0));
            assert(diag_views(parser.diagnostics@) =~= total.1);
        }
        (parser.events, parser.diagnostics)
    }
}
} // verus!
