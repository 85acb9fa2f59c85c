//! Hand-rolled lexer for Dockerfiles.
//!
//! # Design
//!
//! The lexer produces a coarse stream of tokens — trivia (whitespace, newline,
//! comment, line continuation), quoted strings, and `WORD` (any run of
//! non-whitespace, non-quote bytes). Internal punctuation such as `=`, `:`,
//! `[`, `]` is *not* split out at the lexer level: those characters are
//! contextual, so the parser re-tokenizes within a `WORD` when it actually
//! needs structure.
//!
//! Dockerfile-specific rules implemented here:
//!
//! - `#` only starts a comment when it is the first non-whitespace byte on a
//!   *logical* line. A `#` mid-instruction is just part of a `WORD`.
//! - `\<newline>` (or, if a `# escape=` directive overrode it, `` `<newline> ``)
//!   is emitted as a `LINE_CONTINUATION` trivia token.
//! - The escape character is configurable through [`Lexer::with_escape`].
//!
//! Two specialized lex modes are provided in addition to the general
//! [`Lexer::next_token`] step: [`Lexer::lex_shell_body`] and
//! [`Lexer::lex_heredoc_body`].
//!
//! The behaviour of every step is stated by the spec functions of this module
//! ([`scan`], [`shell_body_end`], [`heredoc_end`], ...) over the bytes of the
//! source; [`lex_from`] is the whole token stream.

use vstd::prelude::*;
use vstd::utf8::*;

use crate::kind::SyntaxKind;
use crate::text_range::TextRange;
use crate::utf8_text::{ascii_cut, bytes_of, lemma_ascii_cut_is_boundary, substr};

verus! {

/// The default Dockerfile escape character.
pub const DEFAULT_ESCAPE: char = '\\';

/// A single lexed token: a [`SyntaxKind`] plus the byte range it covers.
#[derive(Debug, Clone, Copy, PartialEq, Eq, Structural)]
pub struct Token {
    pub kind: SyntaxKind,
    pub range: TextRange,
}

impl Token {
    /// The source text covered by this token. Its range must lie within
    /// `src` and cut it at character boundaries.
    pub fn text<'a>(&self, src: &'a str) -> (r: &'a str)
        requires
            self.range.start <= self.range.end <= bytes_of(src).len(),
            is_char_boundary(bytes_of(src), self.range.start as int),
            is_char_boundary(bytes_of(src), self.range.end as int),
        ensures
            bytes_of(r) == bytes_of(src).subrange(self.range.start as int, self.range.end as int),
            r@ == decode_utf8(bytes_of(src).subrange(self.range.start as int, self.range.end as int)),
    {
        substr(src, self.range.start as usize, self.range.end as usize)
    }
}

// ----------------------------------------------------------------------
// Byte classes and scanning functions over the source bytes
// ----------------------------------------------------------------------

/// `\n` or `\r`.
pub open spec fn is_newline_byte(x: u8) -> bool {
    x == 10 || x == 13
}

/// A space or a tab.
pub open spec fn is_blank_byte(x: u8) -> bool {
    x == 32 || x == 9
}

/// Bytes that end a `WORD`: blanks, newlines and quotes.
pub open spec fn is_word_boundary(x: u8) -> bool {
    is_blank_byte(x) || is_newline_byte(x) || x == 34 || x == 39
}

/// There is a newline byte at index `i`.
pub open spec fn newline_at(b: Seq<u8>, i: int) -> bool {
    0 <= i < b.len() && is_newline_byte(b[i])
}

/// Where a newline starting at `i` ends: past `\r\n`, `\r` or `\n`; `i` itself
/// if there is no newline at `i`.
pub open spec fn newline_end(b: Seq<u8>, i: int) -> int {
    if 0 <= i < b.len() && b[i] == 13 {
        if i + 1 < b.len() && b[i + 1] == 10 {
            i + 2
        } else {
            i + 1
        }
    } else if 0 <= i < b.len() && b[i] == 10 {
        i + 1
    } else {
        i
    }
}

/// The first index at or after `i` that does not hold a blank.
pub open spec fn blanks_end(b: Seq<u8>, i: int) -> int
    decreases b.len() - i,
{
    if 0 <= i < b.len() && is_blank_byte(b[i]) {
        blanks_end(b, i + 1)
    } else {
        i
    }
}

/// The first index at or after `i` that does not hold a tab.
pub open spec fn tabs_end(b: Seq<u8>, i: int) -> int
    decreases b.len() - i,
{
    if 0 <= i < b.len() && b[i] == 9 {
        tabs_end(b, i + 1)
    } else {
        i
    }
}

/// The first index at or after `i` that holds a newline byte, or the end of
/// the bytes.
pub open spec fn line_end(b: Seq<u8>, i: int) -> int
    decreases b.len() - i,
{
    if 0 <= i < b.len() && !is_newline_byte(b[i]) {
        line_end(b, i + 1)
    } else {
        i
    }
}

/// An escape byte followed by a newline starts at `i`.
pub open spec fn continuation_at(b: Seq<u8>, i: int, esc: u8) -> bool {
    0 <= i < b.len() && b[i] == esc && newline_at(b, i + 1)
}

/// Where a `WORD` starting at `i` ends: at the first word boundary byte or
/// line continuation, or at the end of the bytes.
pub open spec fn word_end(b: Seq<u8>, i: int, esc: u8) -> int
    decreases b.len() - i,
{
    if 0 <= i < b.len() && !is_word_boundary(b[i]) && !continuation_at(b, i, esc) {
        word_end(b, i + 1, esc)
    } else {
        i
    }
}

/// Where a quoted string whose body starts at `i` ends, and whether its
/// closing `quote` was found. An escape byte skips the byte after it.
pub open spec fn string_end(b: Seq<u8>, i: int, quote: u8, esc: u8) -> (int, bool)
    decreases b.len() - i,
{
    if i < 0 || i >= b.len() {
        (i, false)
    } else if b[i] == quote {
        (i + 1, true)
    } else if b[i] == esc && i + 1 < b.len() {
        string_end(b, i + 2, quote, esc)
    } else {
        string_end(b, i + 1, quote, esc)
    }
}

/// Where a shell body starting at `i` ends: at the first newline that is not
/// part of a line continuation, or at the end of the bytes.
pub open spec fn shell_body_end(b: Seq<u8>, i: int, esc: u8) -> int
    decreases b.len() - i,
{
    if i < 0 || i >= b.len() || is_newline_byte(b[i]) {
        i
    } else if continuation_at(b, i, esc) {
        shell_body_end(b, newline_end(b, i + 1), esc)
    } else {
        shell_body_end(b, i + 1, esc)
    }
}

/// The bytes of the line starting at `i` that are compared with a heredoc
/// delimiter: leading tabs are left out when `strip_tabs` holds.
pub open spec fn heredoc_line(b: Seq<u8>, i: int, strip_tabs: bool) -> Seq<u8> {
    let start = if strip_tabs { tabs_end(b, i) } else { i };
    b.subrange(start, line_end(b, i))
}

/// Where a heredoc body starting at line start `i` ends: just past the
/// newline of the first line that equals `delim` (once the leading tabs are
/// dropped, for `strip_tabs`), or at the end of the bytes.
pub open spec fn heredoc_end(b: Seq<u8>, i: int, delim: Seq<u8>, strip_tabs: bool) -> int
    decreases b.len() - i,
{
    if i < 0 || i >= b.len() {
        i
    } else {
        let next = newline_end(b, line_end(b, i));
        if heredoc_line(b, i, strip_tabs) == delim {
            next
        } else {
            proof {
                lemma_line_end(b, i);
            }
            heredoc_end(b, next, delim, strip_tabs)
        }
    }
}

/// One step of the general lexer at `pos < b.len()`: the kind of the token
/// that starts there, where it ends, and whether the cursor is at the start
/// of a logical line afterwards.
pub open spec fn scan(b: Seq<u8>, pos: int, esc: u8, at_line_start: bool) -> (SyntaxKind, int, bool) {
    let c = b[pos];
    if continuation_at(b, pos, esc) {
        (SyntaxKind::LINE_CONTINUATION, newline_end(b, pos + 1), false)
    } else if is_blank_byte(c) {
        (SyntaxKind::WHITESPACE, blanks_end(b, pos), at_line_start)
    } else if is_newline_byte(c) {
        (SyntaxKind::NEWLINE, newline_end(b, pos), true)
    } else if c == 35 && at_line_start {
        (SyntaxKind::COMMENT, line_end(b, pos), false)
    } else if c == 34 || c == 39 {
        let (end, terminated) = string_end(b, pos + 1, c, esc);
        (if terminated { SyntaxKind::STRING } else { SyntaxKind::ERROR }, end, false)
    } else {
        (SyntaxKind::WORD, word_end(b, pos, esc), false)
    }
}

/// The token covering `start..end`, offsets as `u32`.
pub open spec fn token_at(kind: SyntaxKind, start: int, end: int) -> Token {
    Token { kind, range: TextRange { start: start as u32, end: end as u32 } }
}

/// The tokens that [`Lexer::next_token`] yields from `pos` on, until the end
/// of the bytes.
pub open spec fn lex_from(b: Seq<u8>, pos: int, esc: u8, at_line_start: bool) -> Seq<Token>
    decreases b.len() - pos,
{
    if pos < 0 || pos >= b.len() {
        Seq::empty()
    } else {
        let (kind, end, ls) = scan(b, pos, esc, at_line_start);
        proof {
            lemma_scan(b, pos, esc, at_line_start);
        }
        seq![token_at(kind, pos, end)] + lex_from(b, end, esc, ls)
    }
}

// ----------------------------------------------------------------------
// Facts about the scanning functions
// ----------------------------------------------------------------------

pub proof fn lemma_blanks_end(b: Seq<u8>, i: int)
    requires
        0 <= i <= b.len(),
    ensures
        i <= blanks_end(b, i) <= b.len(),
        blanks_end(b, i) > i ==> is_blank_byte(b[blanks_end(b, i) - 1]),
        forall|j: int| i <= j < blanks_end(b, i) ==> is_blank_byte(#[trigger] b[j]),
    decreases b.len() - i,
{
    if i < b.len() && is_blank_byte(b[i]) {
        lemma_blanks_end(b, i + 1);
    }
}

pub proof fn lemma_tabs_end(b: Seq<u8>, i: int)
    requires
        0 <= i <= b.len(),
    ensures
        i <= tabs_end(b, i) <= line_end(b, i),
        forall|j: int| i <= j < tabs_end(b, i) ==> #[trigger] b[j] == 9,
    decreases b.len() - i,
{
    lemma_line_end(b, i);
    if i < b.len() && b[i] == 9 {
        lemma_tabs_end(b, i + 1);
        assert(line_end(b, i) == line_end(b, i + 1));
    }
}

pub proof fn lemma_line_end(b: Seq<u8>, i: int)
    requires
        0 <= i <= b.len(),
    ensures
        i <= line_end(b, i) <= b.len(),
        line_end(b, i) < b.len() ==> is_newline_byte(b[line_end(b, i)]),
        forall|j: int| i <= j < line_end(b, i) ==> !is_newline_byte(#[trigger] b[j]),
        i <= newline_end(b, line_end(b, i)) <= b.len(),
        i < b.len() ==> newline_end(b, line_end(b, i)) > i,
    decreases b.len() - i,
{
    if i < b.len() && !is_newline_byte(b[i]) {
        lemma_line_end(b, i + 1);
    }
}

pub proof fn lemma_word_end(b: Seq<u8>, i: int, esc: u8)
    requires
        0 <= i <= b.len(),
    ensures
        i <= word_end(b, i, esc) <= b.len(),
        word_end(b, i, esc) < b.len() ==> is_word_boundary(b[word_end(b, i, esc)])
            || continuation_at(b, word_end(b, i, esc), esc),
    decreases b.len() - i,
{
    if 0 <= i < b.len() && !is_word_boundary(b[i]) && !continuation_at(b, i, esc) {
        lemma_word_end(b, i + 1, esc);
    }
}

pub proof fn lemma_string_end(b: Seq<u8>, i: int, quote: u8, esc: u8)
    requires
        0 <= i <= b.len(),
    ensures
        i <= string_end(b, i, quote, esc).0 <= b.len(),
        string_end(b, i, quote, esc).1 ==> b[string_end(b, i, quote, esc).0 - 1] == quote,
        !string_end(b, i, quote, esc).1 ==> string_end(b, i, quote, esc).0 == b.len(),
    decreases b.len() - i,
{
    if i < b.len() && b[i] != quote {
        if b[i] == esc && i + 1 < b.len() {
            lemma_string_end(b, i + 2, quote, esc);
        } else {
            lemma_string_end(b, i + 1, quote, esc);
        }
    }
}

pub proof fn lemma_shell_body_end(b: Seq<u8>, i: int, esc: u8)
    requires
        0 <= i <= b.len(),
    ensures
        i <= shell_body_end(b, i, esc) <= b.len(),
        shell_body_end(b, i, esc) < b.len() ==> is_newline_byte(b[shell_body_end(b, i, esc)]),
    decreases b.len() - i,
{
    if i < b.len() && !is_newline_byte(b[i]) {
        if continuation_at(b, i, esc) {
            lemma_shell_body_end(b, newline_end(b, i + 1), esc);
        } else {
            lemma_shell_body_end(b, i + 1, esc);
        }
    }
}

pub proof fn lemma_heredoc_end(b: Seq<u8>, i: int, delim: Seq<u8>, strip_tabs: bool)
    requires
        0 <= i <= b.len(),
    ensures
        i <= heredoc_end(b, i, delim, strip_tabs) <= b.len(),
        heredoc_end(b, i, delim, strip_tabs) == b.len() || heredoc_end(b, i, delim, strip_tabs)
            == i || (heredoc_end(b, i, delim, strip_tabs) > 0 && is_newline_byte(
            b[heredoc_end(b, i, delim, strip_tabs) - 1],
        )),
    decreases b.len() - i,
{
    if i < b.len() {
        lemma_line_end(b, i);
        let next = newline_end(b, line_end(b, i));
        if heredoc_line(b, i, strip_tabs) != delim {
            lemma_heredoc_end(b, next, delim, strip_tabs);
        }
    }
}

/// Every step of the general lexer makes progress and stays within the bytes.
pub proof fn lemma_scan(b: Seq<u8>, pos: int, esc: u8, at_line_start: bool)
    requires
        0 <= pos < b.len(),
    ensures
        pos < scan(b, pos, esc, at_line_start).1 <= b.len(),
{
    let c = b[pos];
    if continuation_at(b, pos, esc) {
    } else if is_blank_byte(c) {
        lemma_blanks_end(b, pos + 1);
    } else if is_newline_byte(c) {
    } else if c == 35 && at_line_start {
        lemma_line_end(b, pos + 1);
    } else if c == 34 || c == 39 {
        lemma_string_end(b, pos + 1, c, esc);
    } else {
        lemma_word_end(b, pos + 1, esc);
    }
}


/// `toks` cover `from..to` exactly: each token is non-empty and starts where
/// the one before it ends.
pub open spec fn tiles(toks: Seq<Token>, from: int, to: int) -> bool {
    &&& toks.len() == 0 ==> from == to
    &&& toks.len() > 0 ==> toks[0].range.start == from && toks.last().range.end == to
    &&& forall|i: int| 0 <= i < toks.len() ==> #[trigger] toks[i].range.start < toks[i].range.end
    &&& forall|i: int|
        0 <= i < toks.len() - 1 ==> #[trigger] toks[i].range.end == toks[i + 1].range.start
}

/// The tokens of [`lex_from`] cover the source from `pos` to its end.
pub proof fn lemma_lex_tiles(b: Seq<u8>, pos: int, esc: u8, at_line_start: bool)
    requires
        0 <= pos <= b.len() <= u32::MAX,
    ensures
        tiles(lex_from(b, pos, esc, at_line_start), pos, b.len() as int),
    decreases b.len() - pos,
{
    if pos < b.len() {
        let (kind, end, ls) = scan(b, pos, esc, at_line_start);
        lemma_scan(b, pos, esc, at_line_start);
        lemma_lex_tiles(b, end, esc, ls);
        let rest = lex_from(b, end, esc, ls);
        let toks = lex_from(b, pos, esc, at_line_start);
        assert(toks == seq![token_at(kind, pos, end)] + rest);
        assert forall|i: int| 0 <= i < toks.len() implies #[trigger] toks[i].range.start
            < toks[i].range.end by {
            if i > 0 {
                assert(toks[i] == rest[i - 1]);
            }
        }
        assert forall|i: int| 0 <= i < toks.len() - 1 implies #[trigger] toks[i].range.end
            == toks[i + 1].range.start by {
            if i > 0 {
                assert(toks[i] == rest[i - 1]);
                assert(toks[i + 1] == rest[i]);
            }
        }
        if rest.len() > 0 {
            assert(toks.last() == rest.last());
        }
    }
}

/// Whether the cursor is at the start of a logical line after the kind `k`
/// was lexed, when it was at one (`ls`) before: after a newline it is,
/// after whitespace it stays as it was, after anything else it is not.
pub open spec fn line_start_after(k: SyntaxKind, ls: bool) -> bool {
    if k == SyntaxKind::NEWLINE {
        true
    } else if k == SyntaxKind::WHITESPACE {
        ls
    } else {
        false
    }
}

/// Whether the token at `i` of `toks` is at the start of a logical line: the
/// tokens before it, back to the last newline, are whitespace — or, when
/// there is no newline before it, all of them are and `first` holds.
pub open spec fn starts_logical_line(toks: Seq<Token>, i: int, first: bool) -> bool
    decreases i,
{
    if i <= 0 {
        first
    } else {
        line_start_after(toks[i - 1].kind, starts_logical_line(toks, i - 1, first))
    }
}

proof fn lemma_starts_logical_line_shift(t: Token, rest: Seq<Token>, i: int, first: bool)
    requires
        0 <= i <= rest.len(),
    ensures
        starts_logical_line(seq![t] + rest, i + 1, first) == starts_logical_line(
            rest,
            i,
            line_start_after(t.kind, first),
        ),
    decreases i,
{
    let toks = seq![t] + rest;
    assert(toks[0] == t);
    reveal_with_fuel(starts_logical_line, 2);
    if i > 0 {
        lemma_starts_logical_line_shift(t, rest, i - 1, first);
        assert(toks[i] == rest[i - 1]);
    }
}

/// A `#` starts a comment exactly when it is the first byte of its token and
/// that token starts a logical line (only whitespace since the last
/// newline, a line continuation not counting as one): a `#` within an
/// instruction is part of a word.
pub proof fn lemma_comments_start_logical_lines(b: Seq<u8>, pos: int, esc: u8, at_line_start: bool)
    requires
        0 <= pos <= b.len() <= u32::MAX,
        esc != 35,
    ensures
        forall|i: int|
            0 <= i < lex_from(b, pos, esc, at_line_start).len() ==> ((#[trigger] lex_from(
                b,
                pos,
                esc,
                at_line_start,
            )[i]).kind == SyntaxKind::COMMENT <==> starts_logical_line(
                lex_from(b, pos, esc, at_line_start),
                i,
                at_line_start,
            ) && b[lex_from(b, pos, esc, at_line_start)[i].range.start as int] == 35),
    decreases b.len() - pos,
{
    if pos < b.len() {
        let (kind, end, ls) = scan(b, pos, esc, at_line_start);
        lemma_scan(b, pos, esc, at_line_start);
        lemma_comments_start_logical_lines(b, end, esc, ls);
        let rest = lex_from(b, end, esc, ls);
        let toks = lex_from(b, pos, esc, at_line_start);
        let t = token_at(kind, pos, end);
        assert(toks == seq![t] + rest);
        assert(ls == line_start_after(kind, at_line_start));
        assert forall|i: int| 0 <= i < toks.len() implies ((#[trigger] toks[i]).kind
            == SyntaxKind::COMMENT <==> starts_logical_line(toks, i, at_line_start)
            && b[toks[i].range.start as int] == 35) by {
            if i > 0 {
                assert(toks[i] == rest[i - 1]);
                lemma_starts_logical_line_shift(t, rest, i - 1, at_line_start);
            }
        }
    }
}

/// Each token of [`lex_from`] is what one step of the lexer gives at its
/// start, in the logical-line state that the tokens before it leave.
pub proof fn lemma_lex_steps(b: Seq<u8>, pos: int, esc: u8, at_line_start: bool)
    requires
        0 <= pos <= b.len() <= u32::MAX,
    ensures
        forall|j: int|
            0 <= j < lex_from(b, pos, esc, at_line_start).len() ==> {
                let t = #[trigger] lex_from(b, pos, esc, at_line_start)[j];
                &&& 0 <= t.range.start < b.len()
                &&& scan(
                    b,
                    t.range.start as int,
                    esc,
                    starts_logical_line(lex_from(b, pos, esc, at_line_start), j, at_line_start),
                ) == (t.kind, t.range.end as int, starts_logical_line(
                    lex_from(b, pos, esc, at_line_start),
                    j + 1,
                    at_line_start,
                ))
            },
    decreases b.len() - pos,
{
    if pos < b.len() {
        let (kind, end, ls) = scan(b, pos, esc, at_line_start);
        lemma_scan(b, pos, esc, at_line_start);
        lemma_lex_steps(b, end, esc, ls);
        let rest = lex_from(b, end, esc, ls);
        let toks = lex_from(b, pos, esc, at_line_start);
        let t = token_at(kind, pos, end);
        assert(toks == seq![t] + rest);
        assert(ls == line_start_after(kind, at_line_start));
        assert forall|j: int| 0 <= j < toks.len() implies {
            let u = #[trigger] toks[j];
            &&& 0 <= u.range.start < b.len()
            &&& scan(b, u.range.start as int, esc, starts_logical_line(toks, j, at_line_start)) == (
                u.kind,
                u.range.end as int,
                starts_logical_line(toks, j + 1, at_line_start),
            )
        } by {
            lemma_starts_logical_line_shift(t, rest, j, at_line_start);
            if j > 0 {
                assert(toks[j] == rest[j - 1]);
                lemma_starts_logical_line_shift(t, rest, j - 1, at_line_start);
            } else {
                reveal_with_fuel(starts_logical_line, 2);
                assert(toks[0] == t);
            }
        }
    }
}

/// An escape byte followed by a newline at the start of a token is a line
/// continuation, and a line continuation is just that: the escape byte and
/// the newline (`\n`, `\r\n` or `\r`) after it.
pub proof fn lemma_continuations(b: Seq<u8>, pos: int, esc: u8, at_line_start: bool)
    requires
        0 <= pos <= b.len() <= u32::MAX,
    ensures
        forall|i: int|
            0 <= i < lex_from(b, pos, esc, at_line_start).len() ==> {
                let t = #[trigger] lex_from(b, pos, esc, at_line_start)[i];
                &&& (t.kind == SyntaxKind::LINE_CONTINUATION <==> continuation_at(
                    b,
                    t.range.start as int,
                    esc,
                ))
                &&& t.kind == SyntaxKind::LINE_CONTINUATION ==> t.range.end == newline_end(
                    b,
                    t.range.start + 1,
                )
            },
    decreases b.len() - pos,
{
    if pos < b.len() {
        let (kind, end, ls) = scan(b, pos, esc, at_line_start);
        lemma_scan(b, pos, esc, at_line_start);
        lemma_continuations(b, end, esc, ls);
        let rest = lex_from(b, end, esc, ls);
        let toks = lex_from(b, pos, esc, at_line_start);
        assert(toks == seq![token_at(kind, pos, end)] + rest);
        assert forall|i: int| 0 <= i < toks.len() implies {
            let t = #[trigger] toks[i];
            &&& (t.kind == SyntaxKind::LINE_CONTINUATION <==> continuation_at(
                b,
                t.range.start as int,
                esc,
            ))
            &&& t.kind == SyntaxKind::LINE_CONTINUATION ==> t.range.end == newline_end(
                b,
                t.range.start + 1,
            )
        } by {
            if i > 0 {
                assert(toks[i] == rest[i - 1]);
            }
        }
    }
}

/// Every step of the general lexer ends next to an ASCII byte, when the
/// escape byte is ASCII.
pub proof fn lemma_scan_ascii_cut(b: Seq<u8>, pos: int, esc: u8, at_line_start: bool)
    requires
        0 <= pos < b.len(),
        esc < 0x80,
    ensures
        ascii_cut(b, scan(b, pos, esc, at_line_start).1),
{
    let c = b[pos];
    if continuation_at(b, pos, esc) {
    } else if is_blank_byte(c) {
        lemma_blanks_end(b, pos + 1);
        lemma_blanks_end(b, pos);
    } else if is_newline_byte(c) {
    } else if c == 35 && at_line_start {
        lemma_line_end(b, pos);
    } else if c == 34 || c == 39 {
        lemma_string_end(b, pos + 1, c, esc);
    } else {
        lemma_word_end(b, pos, esc);
    }
}

/// With valid UTF-8 bytes and an ASCII escape byte, every token of
/// [`lex_from`] starting at a boundary `pos` begins and ends at character
/// boundaries.
pub proof fn lemma_lex_boundaries(b: Seq<u8>, pos: int, esc: u8, at_line_start: bool)
    requires
        0 <= pos <= b.len() <= u32::MAX,
        valid_utf8(b),
        esc < 0x80,
        is_char_boundary(b, pos),
    ensures
        forall|i: int|
            0 <= i < lex_from(b, pos, esc, at_line_start).len() ==> {
                let t = #[trigger] lex_from(b, pos, esc, at_line_start)[i];
                &&& is_char_boundary(b, t.range.start as int)
                &&& is_char_boundary(b, t.range.end as int)
                &&& t.range.start <= t.range.end <= b.len()
            },
    decreases b.len() - pos,
{
    if pos < b.len() {
        let (kind, end, ls) = scan(b, pos, esc, at_line_start);
        lemma_scan(b, pos, esc, at_line_start);
        lemma_scan_ascii_cut(b, pos, esc, at_line_start);
        lemma_ascii_cut_is_boundary(b, end);
        lemma_lex_boundaries(b, end, esc, ls);
        let rest = lex_from(b, end, esc, ls);
        let toks = lex_from(b, pos, esc, at_line_start);
        assert(toks == seq![token_at(kind, pos, end)] + rest);
        assert forall|i: int| 0 <= i < toks.len() implies {
            let t = #[trigger] toks[i];
            &&& is_char_boundary(b, t.range.start as int)
            &&& is_char_boundary(b, t.range.end as int)
            &&& t.range.start <= t.range.end <= b.len()
        } by {
            if i > 0 {
                assert(toks[i] == rest[i - 1]);
            }
        }
    }
}

/// The escape byte for an escape character: the character's code when it is
/// ASCII; a non-ASCII (multi-byte) character falls back to `\`.
pub open spec fn escape_byte(c: char) -> u8 {
    if (c as u32) < 0x80 {
        c as u8
    } else {
        92
    }
}

/// Stateful cursor over a Dockerfile source string.
///
/// `pos` is a byte offset into `src`; `at_line_start` is `true` when only
/// whitespace tokens (or no tokens at all) have been emitted since the last
/// newline: a `#` is only treated as a comment in this state.
#[derive(Debug, Clone)]
pub struct Lexer<'a> {
    pub src: &'a str,
    pub pos: usize,
    pub escape: u8,
    pub at_line_start: bool,
}

/// The first index at or after `from` that holds a newline byte, or the
/// length of `bytes`.
fn next_newline(bytes: &[u8], from: usize) -> (r: usize)
    ensures
        r == line_end(bytes@, from as int),
{
    let mut i = from;
    while i < bytes.len() && !(bytes[i] == 10 || bytes[i] == 13)
        invariant
            from <= i,
            line_end(bytes@, i as int) == line_end(bytes@, from as int),
        decreases bytes.len() - i,
    {
        i += 1;
    }
    i
}

/// Whether `bytes[start..end]` equals `other`.
fn bytes_range_eq(bytes: &[u8], start: usize, end: usize, other: &[u8]) -> (r: bool)
    requires
        start <= end <= bytes@.len(),
    ensures
        r == (bytes@.subrange(start as int, end as int) == other@),
{
    if end - start != other.len() {
        return false;
    }
    let mut i: usize = 0;
    while i < other.len()
        invariant
            start <= end <= bytes@.len(),
            end - start == other@.len(),
            i <= other@.len(),
            forall|j: int| 0 <= j < i ==> bytes@[start + j] == other@[j],
        decreases other@.len() - i,
    {
        if bytes[start + i] != other[i] {
            assert(bytes@.subrange(start as int, end as int)[i as int] != other@[i as int]);
            return false;
        }
        i += 1;
    }
    assert(bytes@.subrange(start as int, end as int) =~= other@);
    true
}

impl<'a> Lexer<'a> {
    /// The bytes of the source.
    pub open spec fn bytes(&self) -> Seq<u8> {
        bytes_of(self.src)
    }

    /// The state after a [`scan`] step from this one.
    pub open spec fn stepped(&self, end: int, at_line_start: bool) -> Lexer<'a> {
        Lexer { src: self.src, pos: end as usize, escape: self.escape, at_line_start }
    }

    /// Construct a lexer using the default escape character (`\`).
    pub fn new(src: &'a str) -> (l: Lexer<'a>)
        ensures
            l.src == src,
            l.pos == 0,
            l.escape == 92,
            l.at_line_start,
    {
        Self::with_escape(src, DEFAULT_ESCAPE)
    }

    /// Construct a lexer with a custom escape character. Dockerfile only
    /// permits ASCII escape characters (`\` or `` ` ``); a non-ASCII
    /// (multi-byte) character falls back to `\`.
    pub fn with_escape(src: &'a str, escape: char) -> (l: Lexer<'a>)
        ensures
            l.src == src,
            l.pos == 0,
            l.escape == escape_byte(escape),
            l.at_line_start,
    {
        let code = escape as u32;
        let escape: u8 = if code < 0x80 {
            code as u8
        } else {
            92
        };
        Lexer { src, pos: 0, escape, at_line_start: true }
    }

    /// Total length of the source, in bytes.
    pub fn source_len(&self) -> (r: usize)
        ensures
            r == self.bytes().len(),
    {
        self.src.as_bytes().len()
    }

    /// Current cursor position.
    pub fn position(&self) -> (r: u32)
        requires
            self.pos <= u32::MAX,
        ensures
            r == self.pos,
    {
        self.pos as u32
    }

    /// `true` once the cursor has consumed all input.
    pub fn is_eof(&self) -> (r: bool)
        ensures
            r == (self.pos >= self.bytes().len()),
    {
        self.pos >= self.src.as_bytes().len()
    }

    fn is_newline_at(&self, idx: usize) -> (r: bool)
        ensures
            r == newline_at(self.bytes(), idx as int),
    {
        let bytes = self.src.as_bytes();
        idx < bytes.len() && (bytes[idx] == 10 || bytes[idx] == 13)
    }

    fn consume_newline(&mut self)
        ensures
            final(self).pos == newline_end(old(self).bytes(), old(self).pos as int),
            final(self).src == old(self).src,
            final(self).escape == old(self).escape,
            final(self).at_line_start == old(self).at_line_start,
    {
        let bytes = self.src.as_bytes();
        if self.pos < bytes.len() && bytes[self.pos] == 13 {
            self.pos += 1;
            if self.pos < bytes.len() && bytes[self.pos] == 10 {
                self.pos += 1;
            }
        } else if self.pos < bytes.len() && bytes[self.pos] == 10 {
            self.pos += 1;
        }
    }

    fn scan_word(&mut self)
        requires
            old(self).pos <= old(self).bytes().len(),
        ensures
            final(self).pos == word_end(old(self).bytes(), old(self).pos as int, old(self).escape),
            final(self).src == old(self).src,
            final(self).escape == old(self).escape,
            !final(self).at_line_start,
    {
        let bytes = self.src.as_bytes();
        let ghost target = word_end(bytes@, self.pos as int, self.escape);
        while self.pos < bytes.len() && !(bytes[self.pos] == 32 || bytes[self.pos] == 9
            || bytes[self.pos] == 10 || bytes[self.pos] == 13 || bytes[self.pos] == 34
            || bytes[self.pos] == 39) && !(bytes[self.pos] == self.escape && self.is_newline_at(
            self.pos + 1,
        ))
            invariant
                bytes@ == self.bytes(),
                self.src == old(self).src,
                self.escape == old(self).escape,
                self.pos <= bytes@.len(),
                word_end(bytes@, self.pos as int, self.escape) == target,
            decreases bytes@.len() - self.pos,
        {
            self.pos += 1;
        }
        self.at_line_start = false;
    }

    fn scan_string(&mut self, quote: u8) -> (kind: SyntaxKind)
        requires
            old(self).pos < old(self).bytes().len(),
        ensures
            (final(self).pos as int, kind is STRING) == string_end(
                old(self).bytes(),
                old(self).pos + 1,
                quote,
                old(self).escape,
            ),
            kind is STRING || kind is ERROR,
            final(self).src == old(self).src,
            final(self).escape == old(self).escape,
            !final(self).at_line_start,
    {
        let bytes = self.src.as_bytes();
        assert(self.pos < bytes.len());
        self.pos = self.pos + 1;
        let ghost target = string_end(bytes@, self.pos as int, quote, self.escape);
        let mut terminated = false;
        while self.pos < bytes.len()
            invariant_except_break
                bytes@ == self.bytes(),
                self.src == old(self).src,
                self.escape == old(self).escape,
                self.pos <= bytes@.len(),
                string_end(bytes@, self.pos as int, quote, self.escape) == target,
                !terminated,
            ensures
                bytes@ == self.bytes(),
                self.src == old(self).src,
                self.escape == old(self).escape,
                (self.pos as int, terminated) == target,
            decreases bytes@.len() - self.pos,
        {
            let b = bytes[self.pos];
            if b == quote {
                self.pos += 1;
                terminated = true;
                break;
            }
            if b == self.escape && self.pos + 1 < bytes.len() {
                self.pos += 2;
                continue;
            }
            self.pos += 1;
        }
        self.at_line_start = false;
        if terminated {
            SyntaxKind::STRING
        } else {
            SyntaxKind::ERROR
        }
    }

    fn scan_one(&mut self) -> (kind: SyntaxKind)
        requires
            old(self).pos < old(self).bytes().len(),
        ensures
            (kind, final(self).pos as int, final(self).at_line_start) == scan(
                old(self).bytes(),
                old(self).pos as int,
                old(self).escape,
                old(self).at_line_start,
            ),
            final(self).src == old(self).src,
            final(self).escape == old(self).escape,
    {
        let bytes = self.src.as_bytes();
        let b = bytes[self.pos];
        if b == self.escape && self.is_newline_at(self.pos + 1) {
            self.pos += 1;
            self.consume_newline();
            self.at_line_start = false;
            return SyntaxKind::LINE_CONTINUATION;
        }
        if b == 32 || b == 9 {
            let ghost target = blanks_end(bytes@, self.pos as int);
            while self.pos < bytes.len() && (bytes[self.pos] == 32 || bytes[self.pos] == 9)
                invariant
                    bytes@ == self.bytes(),
                    self.src == old(self).src,
                    self.escape == old(self).escape,
                    self.at_line_start == old(self).at_line_start,
                    self.pos <= bytes@.len(),
                    blanks_end(bytes@, self.pos as int) == target,
                decreases bytes@.len() - self.pos,
            {
                self.pos += 1;
            }
            SyntaxKind::WHITESPACE
        } else if b == 10 || b == 13 {
            self.consume_newline();
            self.at_line_start = true;
            SyntaxKind::NEWLINE
        } else if b == 35 && self.at_line_start {
            self.pos = next_newline(bytes, self.pos);
            self.at_line_start = false;
            SyntaxKind::COMMENT
        } else if b == 34 || b == 39 {
            self.scan_string(b)
        } else {
            self.scan_word();
            SyntaxKind::WORD
        }
    }

    /// Returns the next token, or `None` at end of input. The token's end
    /// offset must fit in a `u32`.
    pub fn next_token(&mut self) -> (r: Option<Token>)
        requires
            old(self).pos < old(self).bytes().len() ==> scan(
                old(self).bytes(),
                old(self).pos as int,
                old(self).escape,
                old(self).at_line_start,
            ).1 <= u32::MAX,
        ensures
            old(self).pos >= old(self).bytes().len() ==> r.is_none() && *final(self) == *old(
                self,
            ),
            old(self).pos < old(self).bytes().len() ==> {
                let (kind, end, ls) = scan(
                    old(self).bytes(),
                    old(self).pos as int,
                    old(self).escape,
                    old(self).at_line_start,
                );
                &&& r == Some(token_at(kind, old(self).pos as int, end))
                &&& *final(self) == old(self).stepped(end, ls)
            },
    {
        if self.is_eof() {
            return None;
        }
        let start = self.pos;
        proof {
            lemma_scan(self.bytes(), self.pos as int, self.escape, self.at_line_start);
        }
        let kind = self.scan_one();
        Some(Token { kind, range: TextRange::from_offsets(start, self.pos) })
    }

    /// Lex from the current cursor through the end of the current *logical*
    /// line as a single `SHELL_BODY` token. The trailing newline (if any) is
    /// **not** consumed. Inside a shell body, `escape<newline>` sequences are
    /// part of the token text.
    ///
    /// Returns `None` if the cursor is already at end-of-line / EOF.
    pub fn lex_shell_body(&mut self) -> (r: Option<Token>)
        requires
            old(self).pos < old(self).bytes().len() ==> shell_body_end(
                old(self).bytes(),
                old(self).pos as int,
                old(self).escape,
            ) <= u32::MAX,
        ensures
            old(self).pos >= old(self).bytes().len() || is_newline_byte(
                old(self).bytes()[old(self).pos as int],
            ) ==> r.is_none() && *final(self) == *old(self),
            !(old(self).pos >= old(self).bytes().len() || is_newline_byte(
                old(self).bytes()[old(self).pos as int],
            )) ==> {
                let end = shell_body_end(old(self).bytes(), old(self).pos as int, old(self).escape);
                &&& r == Some(token_at(SyntaxKind::SHELL_BODY, old(self).pos as int, end))
                &&& *final(self) == old(self).stepped(end, false)
            },
    {
        if self.is_eof() {
            return None;
        }
        let bytes = self.src.as_bytes();
        if bytes[self.pos] == 10 || bytes[self.pos] == 13 {
            return None;
        }
        let start = self.pos;
        let ghost target = shell_body_end(bytes@, self.pos as int, self.escape);
        proof {
            lemma_shell_body_end(bytes@, self.pos as int, self.escape);
        }
        while self.pos < bytes.len() && !(bytes[self.pos] == 10 || bytes[self.pos] == 13)
            invariant
                bytes@ == self.bytes(),
                self.src == old(self).src,
                self.escape == old(self).escape,
                self.at_line_start == old(self).at_line_start,
                start <= self.pos <= bytes@.len(),
                shell_body_end(bytes@, self.pos as int, self.escape) == target,
                target <= u32::MAX,
                start == old(self).pos,
            decreases bytes@.len() - self.pos,
        {
            let b = bytes[self.pos];
            if b == self.escape && self.is_newline_at(self.pos + 1) {
                self.pos += 1;
                self.consume_newline();
                continue;
            }
            self.pos += 1;
        }
        self.at_line_start = false;
        Some(Token { kind: SyntaxKind::SHELL_BODY, range: TextRange::from_offsets(start, self.pos) })
    }

    /// Lex a heredoc body up through (and including) the line that matches
    /// `delimiter`. If the delimiter is never found, consumes to EOF and
    /// returns the entire range.
    ///
    /// `strip_tabs` corresponds to the `BuildKit` `<<-` form: leading tabs on
    /// each body line are tolerated when matching the delimiter, but they are
    /// **not** stripped from the token text.
    ///
    /// The cursor must sit at the start of a line: at a character boundary
    /// (the delimiter comparison slices the source there) or at the end.
    pub fn lex_heredoc_body(&mut self, delimiter: &str, strip_tabs: bool) -> (r: Token)
        requires
            old(self).pos < old(self).bytes().len() ==> is_char_boundary(
                old(self).bytes(),
                old(self).pos as int,
            ),
            heredoc_end(old(self).bytes(), old(self).pos as int, bytes_of(delimiter), strip_tabs)
                <= u32::MAX,
            old(self).pos <= u32::MAX,
        ensures
            ({
                let end = heredoc_end(
                    old(self).bytes(),
                    old(self).pos as int,
                    bytes_of(delimiter),
                    strip_tabs,
                );
                &&& r == token_at(SyntaxKind::HEREDOC_BODY, old(self).pos as int, end)
                &&& *final(self) == old(self).stepped(end, true)
            }),
    {
        let bytes = self.src.as_bytes();
        let delim = delimiter.as_bytes();
        let start = self.pos;
        let ghost target = heredoc_end(bytes@, self.pos as int, delim@, strip_tabs);
        proof {
            if start <= bytes@.len() {
                lemma_heredoc_end(bytes@, start as int, delim@, strip_tabs);
            }
            assert(start <= target);
        }
        loop
            invariant_except_break
                bytes@ == self.bytes(),
                delim@ == bytes_of(delimiter),
                self.src == old(self).src,
                self.escape == old(self).escape,
                self.at_line_start == old(self).at_line_start,
                start == old(self).pos,
                heredoc_end(bytes@, self.pos as int, delim@, strip_tabs) == target,
                self.pos >= bytes@.len() ==> self.pos == target,
            ensures
                self.src == old(self).src,
                self.escape == old(self).escape,
                start == old(self).pos,
                self.pos == target,
            decreases bytes@.len() - self.pos,
        {
            if self.pos >= bytes.len() {
                break;
            }
            let line_start = self.pos;
            let mut match_cursor = line_start;
            if strip_tabs {
                while match_cursor < bytes.len() && bytes[match_cursor] == 9
                    invariant
                        line_start <= match_cursor <= bytes@.len(),
                        tabs_end(bytes@, match_cursor as int) == tabs_end(
                            bytes@,
                            line_start as int,
                        ),
                    decreases bytes@.len() - match_cursor,
                {
                    match_cursor += 1;
                }
            }
            let line_end_at = next_newline(bytes, line_start);
            proof {
                lemma_tabs_end(bytes@, line_start as int);
                lemma_line_end(bytes@, line_start as int);
            }
            if bytes_range_eq(bytes, match_cursor, line_end_at, delim) {
                self.pos = line_end_at;
                self.consume_newline();
                break;
            }
            self.pos = line_end_at;
            self.consume_newline();
            assert(self.pos >= bytes@.len() ==> heredoc_end(bytes@, self.pos as int, delim@, strip_tabs)
                == self.pos as int);
        }
        self.at_line_start = true;
        Token { kind: SyntaxKind::HEREDOC_BODY, range: TextRange::from_offsets(start, self.pos) }
    }
}

/// Tokenize an entire source string using the default escape character `\`.
/// Offsets are `u32`, so the source must not be longer than `u32::MAX` bytes.
pub fn lex(src: &str) -> (r: Vec<Token>)
    requires
        bytes_of(src).len() <= u32::MAX,
    ensures
        r@ == lex_from(bytes_of(src), 0, 92, true),
{
    lex_with_escape(src, DEFAULT_ESCAPE)
}

/// Tokenize using a custom escape character.
pub fn lex_with_escape(src: &str, escape: char) -> (r: Vec<Token>)
    requires
        bytes_of(src).len() <= u32::MAX,
    ensures
        r@ == lex_from(bytes_of(src), 0, escape_byte(escape), true),
{
    let mut lexer = Lexer::with_escape(src, escape);
    let mut out: Vec<Token> = Vec::new();
    let ghost b = bytes_of(src);
    loop
        invariant
            lexer.src == src,
            lexer.escape == escape_byte(escape),
            lexer.pos <= b.len() <= u32::MAX,
            b == bytes_of(src),
            out@ + lex_from(b, lexer.pos as int, lexer.escape, lexer.at_line_start) == lex_from(
                b,
                0,
                escape_byte(escape),
                true,
            ),
        decreases b.len() - lexer.pos,
    {
        proof {
            if lexer.pos < b.len() {
                lemma_scan(b, lexer.pos as int, lexer.escape, lexer.at_line_start);
            }
        }
        let ghost before = lexer;
        match lexer.next_token() {
            Some(tok) => {
                proof {
                    let (kind, end, ls) = scan(b, before.pos as int, before.escape, before.at_line_start);
                    assert(lex_from(b, before.pos as int, before.escape, before.at_line_start)
                        == seq![tok] + lex_from(b, end, before.escape, ls));
                    assert(out@.push(tok) + lex_from(b, end, before.escape, ls) =~= out@ + (seq![tok]
                        + lex_from(b, end, before.escape, ls)));
                }
                out.push(tok);
            },
            None => {
                proof {
                    assert(lex_from(b, lexer.pos as int, lexer.escape, lexer.at_line_start) =~= Seq::<Token>::empty());
                    assert(out@ + Seq::<Token>::empty() =~= out@);
                }
                return out;
            },
        }
    }
}
} // verus!
