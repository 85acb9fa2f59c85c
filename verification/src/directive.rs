//! Pre-pass that scans the leading parser-directive block of a Dockerfile.
//!
//! Parser directives appear at the very top of the file as a contiguous block
//! of `# directive=value` comments. Once *any* non-directive content is
//! encountered (a blank line, a regular comment, or an instruction), no
//! further directives are recognized.
//!
//! - `# escape=<char>` sets the line-continuation character for the rest of
//!   the file. This must be known before tokenization, hence the pre-pass.
//! - `# syntax=<image>` names the `BuildKit` frontend image.
//! - `# check=<settings>` configures the `BuildKit` linter.
//!
//! Other directives are preserved verbatim but uninterpreted.

use vstd::prelude::*;
use vstd::utf8::*;

use crate::chars::{
    ascii_lower_seq, chars_of, find_char, index_of, is_ascii_alnum, is_ascii_alpha,
    is_white_space, lemma_find_from, lowercase_string, string_of_range, trim_bounds, trim_seq,
};
use crate::words::{lemma_trim_cut, value_piece_at};
use crate::lexer::{blanks_end, is_newline_byte, lemma_blanks_end, lemma_line_end, line_end, newline_end};
use crate::text_range::TextRange;
use crate::utf8_text::{bytes_of, lemma_ascii_cut_is_boundary, lemma_str_bytes, substr};

verus! {

/// A single parser directive recognized in the leading block.
#[derive(Debug, Clone, PartialEq, Eq)]
pub struct ParserDirective {
    /// Lower-cased directive name (e.g. `"escape"`).
    pub name: String,
    /// Raw directive value (with surrounding whitespace trimmed).
    pub value: String,
    /// Byte range of the entire directive line (the `#...` text only — the
    /// trailing newline is *not* included).
    pub range: TextRange,
}

/// Output of the directive pre-pass.
#[derive(Debug, Clone)]
pub struct DirectiveScan {
    pub directives: Vec<ParserDirective>,
    /// Resolved escape character. Defaults to `\` if no `# escape=` directive
    /// is present (or if the directive is malformed).
    pub escape: char,
}

impl Default for DirectiveScan {
    fn default() -> (r: DirectiveScan)
        ensures
            r.directives@.len() == 0,
            r.escape == '\0',
    {
        DirectiveScan { directives: Vec::new(), escape: '\0' }
    }
}

impl DirectiveScan {
    /// Effective escape character for this scan.
    pub fn escape_char(&self) -> (r: char)
        ensures
            r == self.escape,
    {
        self.escape
    }
}

/// A directive as plain values: name, value, and the start (its `#`) and
/// end of its text on its line.
pub type DirectiveView = (Seq<char>, Seq<char>, int, int);

/// The view of a directive.
pub open spec fn directive_view(d: ParserDirective) -> DirectiveView {
    (d.name@, d.value@, d.range.start as int, d.range.end as int)
}

/// The characters of the name `escape`.
pub open spec fn escape_name() -> Seq<char> {
    seq!['e', 's', 'c', 'a', 'p', 'e']
}

/// A directive name starts with an ASCII letter and goes on with ASCII
/// letters, digits, `_` and `-`.
pub open spec fn valid_directive_name(name: Seq<char>) -> bool {
    &&& name.len() > 0
    &&& is_ascii_alpha(name[0])
    &&& forall|i: int|
        1 <= i < name.len() ==> is_ascii_alnum(#[trigger] name[i]) || name[i] == '_' || name[i]
            == '-'
}

/// The `(name, value)` that the comment body `body` (the text after `#`)
/// declares, if it is a directive: `name = value` once trimmed, split at the
/// first `=`, both sides trimmed and non-empty, the name valid; the name is
/// lower-cased.
pub open spec fn directive_body(body: Seq<char>) -> Option<(Seq<char>, Seq<char>)> {
    let t = trim_seq(body);
    match index_of(t, '=') {
        None => None,
        Some(k) => {
            let name = trim_seq(t.subrange(0, k));
            let value = trim_seq(t.subrange(k + 1, t.len() as int));
            if name.len() == 0 || value.len() == 0 || !valid_directive_name(name) {
                None
            } else {
                Some((ascii_lower_seq(name), value))
            }
        },
    }
}

/// The value of a directive is the text of its comment body after the
/// first `=`, as written (no case mapping, nothing else changed), with the
/// whitespace around it left out.
pub proof fn lemma_directive_body_value_as_written(body: Seq<char>)
    ensures
        directive_body(body) matches Some((_, v)) ==> exists|k: int, a: int, c: int|
            #[trigger] value_piece_at(body, k, a, c) && v == body.subrange(a, c),
{
    let (a0, c0) = lemma_trim_cut(body);
    let t = trim_seq(body);
    lemma_find_from(t, '=', 0);
    if let Some(k) = index_of(t, '=') {
        let tail = t.subrange(k + 1, t.len() as int);
        let (x, y) = lemma_trim_cut(tail);
        let kk = a0 + k;
        let a = kk + 1 + x;
        let c = kk + 1 + y;
        assert forall|j: int| 0 <= j < kk implies body[j] != '=' by {
            if j >= a0 {
                assert(body[j] == t[j - a0]);
            } else {
                assert(is_white_space(body[j]));
            }
        }
        assert forall|m: int| kk < m < a implies is_white_space(#[trigger] body[m]) by {
            assert(body[m] == tail[m - kk - 1]);
        }
        assert forall|m: int| c <= m < body.len() implies is_white_space(#[trigger] body[m]) by {
            if m < c0 {
                assert(body[m] == tail[m - kk - 1]);
            }
        }
        if a < c {
            assert(body[a] == tail[x]);
            assert(body[c - 1] == tail[y - 1]);
        }
        assert(body[kk] == t[k]);
        assert(body.subrange(a, c) =~= tail.subrange(x, y));
        assert(value_piece_at(body, kk, a, c));
    }
}

/// Each scanned directive's value is the text after the first `=` of its
/// comment body (the line after its `#`), as written, trimmed.
pub proof fn lemma_scanned_values_as_written(b: Seq<u8>, i: int)
    requires
        0 <= i < directives_from(b, 0).len(),
    ensures
        ({
            let d = directives_from(b, 0)[i];
            let body = decode_utf8(b.subrange(d.2 + 1, d.3));
            exists|k: int, a: int, c: int| #[trigger] value_piece_at(body, k, a, c) && d.1 == body.subrange(a, c)
        }),
{
    let ds = directives_from(b, 0);
    lemma_directives_contiguous(b, 0);
    assert(b[ds[i].2] == 35 && directive_at(b, ds[i].2) == Some((ds[i].0, ds[i].1, ds[i].3)));
    assert(blanks_end(b, ds[i].2) == ds[i].2);
    lemma_directive_body_value_as_written(decode_utf8(b.subrange(ds[i].2 + 1, ds[i].3)));
}

/// The directive declared by the line starting at `pos`, with the offset
/// where the line's text ends: the line is optional blanks, `#` and a
/// directive body.
pub open spec fn directive_at(b: Seq<u8>, pos: int) -> Option<(Seq<char>, Seq<char>, int)> {
    let cursor = blanks_end(b, pos);
    if cursor >= b.len() || b[cursor] != 35 {
        None
    } else {
        let le = line_end(b, cursor);
        match directive_body(decode_utf8(b.subrange(cursor + 1, le))) {
            Some((n, v)) => Some((n, v, le)),
            None => None,
        }
    }
}

/// The directives of the block that starts at `pos`: one per line, up to the
/// first line that is not a directive. Each one's range starts at its `#`,
/// after any leading blanks of its line.
pub open spec fn directives_from(b: Seq<u8>, pos: int) -> Seq<DirectiveView>
    decreases b.len() - pos,
{
    if pos < 0 || pos >= b.len() {
        Seq::empty()
    } else {
        match directive_at(b, pos) {
            None => Seq::empty(),
            Some((n, v, le)) => {
                proof {
                    lemma_directive_at(b, pos);
                }
                seq![(n, v, blanks_end(b, pos), le)] + directives_from(b, newline_end(b, le))
            },
        }
    }
}

/// The directives form one block at the top: the first is on the line at
/// `pos`, each next one on the line right after the one before, each range
/// starts at the `#` after its line's leading blanks, each is what its line
/// declares, and the block ends at the end of the bytes or at the first line
/// after it that is not a directive — no directive is recognized past that
/// line.
pub proof fn lemma_directives_contiguous(b: Seq<u8>, pos: int)
    requires
        0 <= pos,
    ensures
        ({
            let ds = directives_from(b, pos);
            &&& ds.len() > 0 ==> ds[0].2 == blanks_end(b, pos)
            &&& forall|k: int|
                0 <= k < ds.len() - 1 ==> #[trigger] ds[k + 1].2 == blanks_end(
                    b,
                    newline_end(b, ds[k].3),
                )
            &&& forall|k: int|
                0 <= k < ds.len() ==> b[(#[trigger] ds[k]).2] == 35 && directive_at(b, ds[k].2)
                    == Some((ds[k].0, ds[k].1, ds[k].3))
            &&& ds.len() == 0 ==> pos >= b.len() || directive_at(b, pos) is None
            &&& ds.len() > 0 ==> newline_end(b, ds.last().3) >= b.len() || directive_at(
                b,
                newline_end(b, ds.last().3),
            ) is None
        }),
    decreases b.len() - pos,
{
    if pos < b.len() {
        lemma_directive_at(b, pos);
        if let Some((n, v, le)) = directive_at(b, pos) {
            let c = blanks_end(b, pos);
            lemma_blanks_end(b, pos);
            assert(blanks_end(b, c) == c);
            assert(directive_at(b, c) == directive_at(b, pos));
            let next = newline_end(b, le);
            lemma_directives_contiguous(b, next);
            let rest = directives_from(b, next);
            let ds = directives_from(b, pos);
            assert(ds == seq![(n, v, c, le)] + rest);
            assert forall|k: int| 0 <= k < ds.len() - 1 implies #[trigger] ds[k + 1].2
                == blanks_end(b, newline_end(b, ds[k].3)) by {
                assert(ds[k + 1] == rest[k]);
                if k > 0 {
                    assert(ds[k] == rest[k - 1]);
                    assert(rest[(k - 1) + 1].2 == blanks_end(b, newline_end(b, rest[k - 1].3)));
                } else {
                    assert(ds[0] == (n, v, c, le));
                }
            }
            assert forall|k: int| 0 <= k < ds.len() implies b[(#[trigger] ds[k]).2] == 35
                && directive_at(b, ds[k].2) == Some((ds[k].0, ds[k].1, ds[k].3)) by {
                if k > 0 {
                    assert(ds[k] == rest[k - 1]);
                }
            }
            if rest.len() > 0 {
                assert(ds.last() == rest.last());
            }
        }
    }
}

/// The escape character that a list of directives sets: the first character
/// of the value of the last `escape` directive whose value starts with `\`
/// or `` ` ``; `\` if there is none.
pub open spec fn escape_of(ds: Seq<DirectiveView>) -> char
    decreases ds.len(),
{
    if ds.len() == 0 {
        '\\'
    } else {
        let d = ds.last();
        if d.0 == escape_name() && d.1.len() > 0 && (d.1[0] == '\\' || d.1[0] == '`') {
            d.1[0]
        } else {
            escape_of(ds.drop_last())
        }
    }
}

pub proof fn lemma_directive_at(b: Seq<u8>, pos: int)
    requires
        0 <= pos < b.len(),
    ensures
        directive_at(b, pos) matches Some((n, v, le)) ==> {
            let cursor = blanks_end(b, pos);
            &&& pos <= cursor < le <= b.len()
            &&& b[cursor] == 35
            &&& le == line_end(b, cursor)
            &&& (le < b.len() ==> is_newline_byte(b[le]))
            &&& pos < newline_end(b, le) <= b.len()
        },
{
    lemma_blanks_end(b, pos);
    let cursor = blanks_end(b, pos);
    if cursor < b.len() && b[cursor] == 35 {
        lemma_line_end(b, cursor + 1);
        lemma_line_end(b, cursor);
        assert(line_end(b, cursor) == line_end(b, cursor + 1));
    }
}

/// The first index at or after `from` that holds a newline byte, or the
/// length of `bytes`.
fn find_newline(bytes: &[u8], from: usize) -> (r: usize)
    ensures
        r == line_end(bytes@, from as int),
{
    let mut i = from;
    while i < bytes.len() && !(bytes[i] == 10 || bytes[i] == 13)
        invariant
            from <= i,
            line_end(bytes@, i as int) == line_end(bytes@, from as int),
        decreases bytes.len() - i,
    {
        i += 1;
    }
    i
}

struct ParsedDirective {
    name: String,
    value: String,
}

fn is_valid_directive_name(v: &Vec<char>, start: usize, end: usize) -> (r: bool)
    requires
        start <= end <= v@.len(),
    ensures
        r == valid_directive_name(v@.subrange(start as int, end as int)),
{
    let ghost s = v@.subrange(start as int, end as int);
    if start == end {
        return false;
    }
    let first = v[start];
    if !(('a' <= first && first <= 'z') || ('A' <= first && first <= 'Z')) {
        assert(s[0] == first);
        return false;
    }
    let mut i = start + 1;
    while i < end
        invariant
            start < i <= end <= v@.len(),
            s == v@.subrange(start as int, end as int),
            forall|j: int|
                1 <= j < i - start ==> is_ascii_alnum(#[trigger] s[j]) || s[j] == '_' || s[j]
                    == '-',
        decreases end - i,
    {
        let c = v[i];
        assert(s[i - start] == c);
        if !(('a' <= c && c <= 'z') || ('A' <= c && c <= 'Z') || ('0' <= c && c <= '9') || c
            == '_' || c == '-') {
            return false;
        }
        i += 1;
    }
    assert(s[0] == first);
    true
}

fn parse_directive_body(body: &str) -> (r: Option<ParsedDirective>)
    ensures
        match directive_body(body@) {
            None => r is None,
            Some((n, v)) => r matches Some(p) && p.name@ == n && p.value@ == v,
        },
{
    let chars = chars_of(body);
    let (a, b) = trim_bounds(&chars, 0, chars.len());
    let ghost t = chars@.subrange(a as int, b as int);
    assert(chars@.subrange(0, chars@.len() as int) =~= body@);
    let eq = find_char(&chars, '=', a, b);
    proof {
        lemma_find_from(t, '=', 0);
    }
    let eq_idx = match eq {
        None => {
            proof {
                if index_of(t, '=') is Some {
                    let k = index_of(t, '=').unwrap();
                    assert(t[k] == chars@[a + k]);
                }
            }
            return None;
        },
        Some(k) => k,
    };
    proof {
        assert(t[eq_idx - a] == '=');
        assert forall|j: int| 0 <= j < eq_idx - a implies t[j] != '=' by {
            assert(t[j] == chars@[a + j]);
        }
        assert(index_of(t, '=') == Some((eq_idx - a) as int));
    }
    let (na, nb) = trim_bounds(&chars, a, eq_idx);
    let (va, vb) = trim_bounds(&chars, eq_idx + 1, b);
    proof {
        assert(chars@.subrange(a as int, eq_idx as int) =~= t.subrange(0, eq_idx - a));
        assert(chars@.subrange(eq_idx + 1, b as int) =~= t.subrange(eq_idx - a + 1, t.len() as int));
    }
    if na == nb || va == vb {
        return None;
    }
    if !is_valid_directive_name(&chars, na, nb) {
        return None;
    }
    let name = lowercase_string(&chars, na, nb);
    let value = string_of_range(&chars, va, vb);
    Some(ParsedDirective { name, value })
}

/// Whether `name` is `escape`.
fn is_escape_name(name: &String) -> (r: bool)
    ensures
        r == (name@ == escape_name()),
{
    let c = chars_of(name.as_str());
    let r = c.len() == 6 && c[0] == 'e' && c[1] == 's' && c[2] == 'c' && c[3] == 'a' && c[4] == 'p'
        && c[5] == 'e';
    proof {
        if r {
            assert(c@ =~= escape_name());
        }
    }
    r
}

/// Every directive line of the block ends at an offset that fits in a `u32`.
pub open spec fn directives_fit(b: Seq<u8>) -> bool {
    forall|i: int|
        0 <= i < directives_from(b, 0).len() ==> (#[trigger] directives_from(b, 0)[i]).3
            <= u32::MAX
}

/// Scan parser directives from the start of `src`.
///
/// Returns every recognized directive plus the resolved escape character.
/// Whitespace before the `#`, around the `=`, and at end of line is tolerated.
/// Directive offsets are `u32`s, so every directive line must end within the
/// first `u32::MAX` bytes.
pub fn scan_directives(src: &str) -> (r: DirectiveScan)
    requires
        directives_fit(bytes_of(src)),
    ensures
        r.directives@.map_values(|d: ParserDirective| directive_view(d)) == directives_from(
            bytes_of(src),
            0,
        ),
        r.escape == escape_of(directives_from(bytes_of(src), 0)),
{
    let mut directives: Vec<ParserDirective> = Vec::new();
    let mut escape = '\\';
    let bytes = src.as_bytes();
    let ghost b = bytes@;
    let mut pos: usize = 0;
    proof {
        lemma_str_bytes(src);
    }
    loop
        invariant_except_break
            b == bytes_of(src),
            b == bytes@,
            valid_utf8(b),
            pos <= b.len(),
            directives_fit(b),
            directives@.map_values(|d: ParserDirective| directive_view(d)) + directives_from(b, pos as int)
                == directives_from(b, 0),
            escape == escape_of(directives@.map_values(|d: ParserDirective| directive_view(d))),
        ensures
            directives@.map_values(|d: ParserDirective| directive_view(d)) == directives_from(b, 0),
            escape == escape_of(directives@.map_values(|d: ParserDirective| directive_view(d))),
        decreases b.len() - pos,
    {
        let ghost done = directives@.map_values(|d: ParserDirective| directive_view(d));
        if pos >= bytes.len() {
            assert(directives_from(b, pos as int) == Seq::<DirectiveView>::empty());
            assert(done + Seq::<DirectiveView>::empty() =~= done);
            break;
        }
        let line_start = pos;
        let mut cursor = line_start;
        while cursor < bytes.len() && (bytes[cursor] == 32 || bytes[cursor] == 9)
            invariant
                line_start <= cursor <= b.len(),
                b == bytes@,
                blanks_end(b, cursor as int) == blanks_end(b, line_start as int),
            decreases b.len() - cursor,
        {
            cursor += 1;
        }
        proof {
            lemma_directive_at(b, pos as int);
        }
        if cursor >= bytes.len() || bytes[cursor] != 35 {
            assert(directive_at(b, pos as int) is None);
            assert(directives_from(b, pos as int) == Seq::<DirectiveView>::empty());
            assert(done + Seq::<DirectiveView>::empty() =~= done);
            break;
        }
        let line_end_at = find_newline(bytes, cursor);
        let after_hash = cursor + 1;
        proof {
            lemma_line_end(b, after_hash as int);
            lemma_line_end(b, cursor as int);
            assert(line_end(b, cursor as int) == line_end(b, after_hash as int));
            lemma_ascii_cut_is_boundary(b, after_hash as int);
            lemma_ascii_cut_is_boundary(b, line_end_at as int);
        }
        let body = substr(src, after_hash, line_end_at);
        let parsed = parse_directive_body(body);
        let directive = match parsed {
            None => {
                assert(directive_at(b, pos as int) is None);
                assert(directives_from(b, pos as int) == Seq::<DirectiveView>::empty());
                assert(done + Seq::<DirectiveView>::empty() =~= done);
                break;
            },
            Some(d) => d,
        };
        let ghost entry = (directive.name@, directive.value@, cursor as int, line_end_at as int);
        proof {
            assert(directives_from(b, pos as int) == seq![entry] + directives_from(
                b,
                newline_end(b, line_end_at as int),
            ));
            assert(directives_from(b, 0)[done.len() as int] == entry);
        }
        if is_escape_name(&directive.name) {
            let value_chars = chars_of(directive.value.as_str());
            if value_chars.len() > 0 && (value_chars[0] == '\\' || value_chars[0] == '`') {
                escape = value_chars[0];
            }
        }
        let d = ParserDirective {
            name: directive.name,
            value: directive.value,
            range: TextRange::from_offsets(cursor, line_end_at),
        };
        directives.push(d);
        pos = line_end_at;
        if pos < bytes.len() && bytes[pos] == 13 {
            pos += 1;
        }
        if pos < bytes.len() && bytes[pos] == 10 {
            pos += 1;
        }
        proof {
            let now = directives@.map_values(|d: ParserDirective| directive_view(d));
            assert(now =~= done.push(entry));
            assert(now.drop_last() =~= done);
            assert(pos == newline_end(b, line_end_at as int));
            assert(now + directives_from(b, pos as int) =~= done + (seq![entry] + directives_from(
                b,
                pos as int,
            )));
        }
    }
    DirectiveScan { directives, escape }
}

} // verus!
