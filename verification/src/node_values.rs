//! Values read from the direct children of a syntax node: the first token of
//! a kind, the value after an `=`, the words of an instruction, the
//! arguments of an exec form.

use vstd::prelude::*;

use crate::kind::SyntaxKind;
use crate::grammar::intraline;
use crate::tree::{
    kind_token_texts, lemma_kind_token_texts_push, node_text, string_views, SyntaxElement,
    SyntaxNode, SyntaxToken,
};
use crate::words::{strip_list_separators, strip_separators, unescape, unquote, unquote_text};

verus! {

/// A `String` option by its characters.
pub open spec fn opt_view(o: Option<String>) -> Option<Seq<char>> {
    match o {
        Some(s) => Some(s@),
        None => None,
    }
}

/// The first element of `s`, if any.
pub open spec fn first_of<T>(s: Seq<T>) -> Option<T> {
    if s.len() > 0 {
        Some(s[0])
    } else {
        None
    }
}

/// Whether `e` is a token of kind `k`.
pub open spec fn is_token_of(e: SyntaxElement, k: SyntaxKind) -> bool {
    e matches SyntaxElement::Token(t) && t.kind == k
}

/// The index of the first token of kind `k` in `s` at or after `i`, if any.
pub open spec fn token_index(s: Seq<SyntaxElement>, k: SyntaxKind, i: int) -> Option<int>
    decreases s.len() - i,
{
    if i < 0 || i >= s.len() {
        None
    } else if is_token_of(s[i], k) {
        Some(i)
    } else {
        token_index(s, k, i + 1)
    }
}

/// The text of the token at `i`.
pub open spec fn token_text_at(s: Seq<SyntaxElement>, i: int) -> Seq<char> {
    match s[i] {
        SyntaxElement::Token(t) => t.text@,
        SyntaxElement::Node(_) => Seq::empty(),
    }
}

/// The text of the first token of kind `k` in `s`, if any.
pub open spec fn first_token_text(s: Seq<SyntaxElement>, k: SyntaxKind) -> Option<Seq<char>> {
    match token_index(s, k, 0) {
        Some(i) => Some(token_text_at(s, i)),
        None => None,
    }
}

/// The value of the first `WORD` or `STRING` token in `s` at or after `i`: a
/// word's text, a string's text without its quotes.
pub open spec fn value_from(s: Seq<SyntaxElement>, i: int) -> Option<Seq<char>>
    decreases s.len() - i,
{
    if i < 0 || i >= s.len() {
        None
    } else {
        match s[i] {
            SyntaxElement::Token(t) => if t.kind == SyntaxKind::WORD {
                Some(t.text@)
            } else if t.kind == SyntaxKind::STRING {
                Some(unquote_text(t.text@))
            } else {
                value_from(s, i + 1)
            },
            SyntaxElement::Node(_) => value_from(s, i + 1),
        }
    }
}

/// The value after the first `=` token of `s` (see [`value_from`]); `None`
/// when there is no `=` or no value after it.
pub open spec fn value_after_equals(s: Seq<SyntaxElement>) -> Option<Seq<char>> {
    match token_index(s, SyntaxKind::EQUALS, 0) {
        Some(i) => value_from(s, i + 1),
        None => None,
    }
}

/// A significant element: a token other than whitespace, a comment or a
/// line continuation.
pub open spec fn is_significant(e: SyntaxElement) -> bool {
    e matches SyntaxElement::Token(t) && !intraline(t.kind)
}

/// The first index of `s` at or after `i` that holds a significant token,
/// or the end.
pub open spec fn significant_from(s: Seq<SyntaxElement>, i: int) -> int
    decreases s.len() - i,
{
    if 0 <= i < s.len() && !is_significant(s[i]) {
        significant_from(s, i + 1)
    } else {
        i
    }
}

/// Moving down from `j`, the first index (not below `lo`) that follows a
/// significant token.
pub open spec fn significant_back(s: Seq<SyntaxElement>, j: int, lo: int) -> int
    decreases j - lo,
{
    if lo < j <= s.len() && !is_significant(s[j - 1]) {
        significant_back(s, j - 1, lo)
    } else {
        j
    }
}

/// What one element contributes to a value's text: a string's text without
/// its quotes, any other token's text, a node's text.
pub open spec fn value_piece(e: SyntaxElement) -> Seq<char> {
    match e {
        SyntaxElement::Token(t) => if t.kind == SyntaxKind::STRING {
            unquote_text(t.text@)
        } else {
            t.text@
        },
        SyntaxElement::Node(n) => node_text(n),
    }
}

/// The pieces of `s[i..j]`, in order.
pub open spec fn value_pieces(s: Seq<SyntaxElement>, i: int, j: int) -> Seq<char>
    decreases j - i,
{
    if j <= i {
        Seq::empty()
    } else {
        value_pieces(s, i, j - 1) + value_piece(s[j - 1])
    }
}

/// The value of a pair written without `=` (legacy `KEY value`), whose key
/// is at `k`: everything from the first significant token after the key
/// through the last one, strings without their quotes; `None` when nothing
/// follows the key.
pub open spec fn legacy_value(s: Seq<SyntaxElement>, k: int) -> Option<Seq<char>> {
    let i = significant_from(s, k + 1);
    if i >= s.len() {
        None
    } else {
        Some(value_pieces(s, i, significant_back(s, s.len() as int, i)))
    }
}

/// The value of a key-value pair: what follows its `=` (see
/// [`value_after_equals`]); for a pair without `=`, what follows its key
/// (see [`legacy_value`]).
pub open spec fn pair_value(s: Seq<SyntaxElement>) -> Option<Seq<char>> {
    match token_index(s, SyntaxKind::EQUALS, 0) {
        Some(i) => value_from(s, i + 1),
        None => match token_index(s, SyntaxKind::WORD, 0) {
            Some(k) => legacy_value(s, k),
            None => None,
        },
    }
}

/// The texts of the `WORD` tokens of `s`, in order.
pub open spec fn words(s: Seq<SyntaxElement>) -> Seq<Seq<char>> {
    kind_token_texts(s, SyntaxKind::WORD)
}

/// The words after the first (the instruction keyword).
pub open spec fn positional(s: Seq<SyntaxElement>) -> Seq<Seq<char>> {
    if words(s).len() == 0 {
        Seq::empty()
    } else {
        words(s).drop_first()
    }
}

/// What one element of an exec form contributes to its arguments: a string
/// without its quotes; a word without its `[`, `]` and `,` separators, unless
/// nothing is left of it.
pub open spec fn exec_arg(e: SyntaxElement) -> Seq<Seq<char>> {
    match e {
        SyntaxElement::Token(t) => if t.kind == SyntaxKind::STRING {
            seq![unquote_text(t.text@)]
        } else if t.kind == SyntaxKind::WORD && strip_separators(t.text@).len() > 0 {
            seq![strip_separators(t.text@)]
        } else {
            Seq::empty()
        },
        SyntaxElement::Node(_) => Seq::empty(),
    }
}

/// The arguments of an exec form with children `s`, in order.
pub open spec fn exec_args(s: Seq<SyntaxElement>) -> Seq<Seq<char>>
    decreases s.len(),
{
    if s.len() == 0 {
        Seq::empty()
    } else {
        exec_args(s.drop_last()) + exec_arg(s.last())
    }
}

pub proof fn lemma_token_index(s: Seq<SyntaxElement>, k: SyntaxKind, i: int)
    requires
        0 <= i,
    ensures
        token_index(s, k, i) matches Some(j) ==> i <= j < s.len() && is_token_of(s[j], k),
    decreases s.len() - i,
{
    if i < s.len() && !is_token_of(s[i], k) {
        lemma_token_index(s, k, i + 1);
    }
}

/// The first token of kind `k` is at `e`.
proof fn lemma_token_index_first(s: Seq<SyntaxElement>, k: SyntaxKind, e: int, i: int)
    requires
        0 <= i <= e < s.len(),
        is_token_of(s[e], k),
        forall|j: int| 0 <= j < e ==> !is_token_of(#[trigger] s[j], k),
    ensures
        token_index(s, k, i) == Some(e),
    decreases e - i,
{
    if i < e {
        lemma_token_index_first(s, k, e, i + 1);
    }
}

/// Text without a backslash has no escapes to resolve.
proof fn lemma_unescape_plain(x: Seq<char>)
    requires
        forall|i: int| 0 <= i < x.len() ==> x[i] != '\\',
    ensures
        unescape(x) == x,
    decreases x.len(),
{
    if x.len() > 0 {
        let r = x.subrange(1, x.len() as int);
        assert forall|i: int| 0 <= i < r.len() implies r[i] != '\\' by {
            assert(r[i] == x[i + 1]);
        }
        lemma_unescape_plain(r);
        assert(x =~= seq![x[0]] + r);
    }
}

/// A quoted value is given without its quotes, for either quote character:
/// when the first `=` of a pair or flag is followed by a string token
/// `q x q` — `q` a single quote, or a double quote with no backslash in
/// `x` — the value is `x`, character for character.
pub proof fn lemma_quoted_value(s: Seq<SyntaxElement>, e: int, t: SyntaxToken, q: char, x: Seq<char>)
    requires
        0 <= e,
        e + 1 < s.len(),
        is_token_of(s[e], SyntaxKind::EQUALS),
        forall|j: int| 0 <= j < e ==> !is_token_of(#[trigger] s[j], SyntaxKind::EQUALS),
        s[e + 1] == SyntaxElement::Token(t),
        t.kind == SyntaxKind::STRING,
        t.text@ == seq![q] + x + seq![q],
        q == '\'' || (q == '"' && forall|i: int| 0 <= i < x.len() ==> x[i] != '\\'),
    ensures
        value_after_equals(s) == Some(x),
        pair_value(s) == Some(x),
{
    lemma_token_index_first(s, SyntaxKind::EQUALS, e, 0);
    let w = t.text@;
    assert(w.subrange(1, w.len() - 1) =~= x);
    assert(w[0] == q && w[w.len() - 1] == q);
    if q == '"' {
        lemma_unescape_plain(x);
    }
    assert(unquote_text(w) == x);
}

/// The index of the first token of kind `k` among the children of `node`,
/// at or after `from`.
pub fn find_token(node: &SyntaxNode, k: SyntaxKind, from: usize) -> (r: Option<usize>)
    ensures
        match r {
            Some(j) => token_index(node.children@, k, from as int) == Some(j as int),
            None => token_index(node.children@, k, from as int) is None,
        },
{
    let c = &node.children;
    let mut i = from;
    while i < c.len()
        invariant
            from <= i,
            c@ == node.children@,
            token_index(c@, k, i as int) == token_index(c@, k, from as int),
        decreases c@.len() - i,
    {
        match &c[i] {
            SyntaxElement::Token(t) => {
                if t.kind == k {
                    assert(is_token_of(c@[i as int], k));
                    assert(token_index(c@, k, i as int) == Some(i as int));
                    return Some(i);
                }
            },
            SyntaxElement::Node(_) => {},
        }
        i += 1;
    }
    None
}

/// The text of the first token of kind `k` among the children of `node`.
pub fn first_token(node: &SyntaxNode, k: SyntaxKind) -> (r: Option<String>)
    ensures
        opt_view(r) == first_token_text(node.children@, k),
{
    match find_token(node, k, 0) {
        Some(i) => {
            proof {
                lemma_token_index(node.children@, k, 0);
            }
            match &node.children[i] {
                SyntaxElement::Token(t) => Some(t.text.clone()),
                SyntaxElement::Node(_) => None,
            }
        },
        None => None,
    }
}

/// The value after the first `=` among the children of `node` (see
/// [`value_after_equals`]).
pub fn value_after_eq(node: &SyntaxNode) -> (r: Option<String>)
    ensures
        opt_view(r) == value_after_equals(node.children@),
{
    let c = &node.children;
    match find_token(node, SyntaxKind::EQUALS, 0) {
        Some(e) => {
            proof {
                lemma_token_index(c@, SyntaxKind::EQUALS, 0);
                assert(token_index(c@, SyntaxKind::EQUALS, 0) == Some(e as int));
                assert(e < c@.len());
                assert(e < c.len());
            }
            let mut i = e + 1;
            while i < c.len()
                invariant
                    e < i <= c@.len(),
                    c@ == node.children@,
                    value_after_equals(c@) == value_from(c@, e + 1),
                    value_from(c@, i as int) == value_from(c@, e + 1),
                decreases c@.len() - i,
            {
                match &c[i] {
                    SyntaxElement::Token(t) => {
                        assert(c@[i as int] == SyntaxElement::Token(*t));
                        if t.kind == SyntaxKind::WORD {
                            return Some(t.text.clone());
                        } else if t.kind == SyntaxKind::STRING {
                            return Some(unquote(t.text.as_str()));
                        }
                    },
                    SyntaxElement::Node(_) => {},
                }
                i += 1;
            }
            None
        },
        None => None,
    }
}

/// Whether `e` is a significant token.
fn is_significant_elem(e: &SyntaxElement) -> (r: bool)
    ensures
        r == is_significant(*e),
{
    match e {
        SyntaxElement::Token(t) => !(t.kind == SyntaxKind::WHITESPACE || t.kind
            == SyntaxKind::LINE_CONTINUATION || t.kind == SyntaxKind::COMMENT),
        SyntaxElement::Node(_) => false,
    }
}

/// The legacy value after the key at `k` among the children of `node` (see
/// [`legacy_value`]).
fn legacy_value_of(node: &SyntaxNode, k: usize) -> (r: Option<String>)
    requires
        k < node.children@.len(),
    ensures
        opt_view(r) == legacy_value(node.children@, k as int),
{
    let c = &node.children;
    let n = c.len();
    let mut i = k + 1;
    while i < n && !is_significant_elem(&c[i])
        invariant
            k < i <= n,
            n == c@.len(),
            significant_from(c@, i as int) == significant_from(c@, k + 1),
        decreases n - i,
    {
        i += 1;
    }
    if i >= n {
        return None;
    }
    let mut j = n;
    while j > i && !is_significant_elem(&c[j - 1])
        invariant
            i < n,
            i <= j <= n,
            n == c@.len(),
            significant_from(c@, k + 1) == i,
            significant_back(c@, j as int, i as int) == significant_back(c@, n as int, i as int),
        decreases j - i,
    {
        j -= 1;
    }
    let mut out = String::new();
    let mut m = i;
    while m < j
        invariant
            i <= m <= j <= n,
            n == c@.len(),
            out@ == value_pieces(c@, i as int, m as int),
        decreases j - m,
    {
        let ghost before = out@;
        match &c[m] {
            SyntaxElement::Token(t) => {
                if t.kind == SyntaxKind::STRING {
                    let u = unquote(t.text.as_str());
                    out.append(u.as_str());
                } else {
                    out.append(t.text.as_str());
                }
            },
            SyntaxElement::Node(child) => {
                let text = child.text();
                out.append(text.as_str());
            },
        }
        assert(out@ == before + value_piece(c@[m as int]));
        m += 1;
    }
    Some(out)
}

/// The value of a key-value pair node (see [`pair_value`]).
pub fn pair_value_of(node: &SyntaxNode) -> (r: Option<String>)
    ensures
        opt_view(r) == pair_value(node.children@),
{
    match find_token(node, SyntaxKind::EQUALS, 0) {
        Some(_) => value_after_eq(node),
        None => match find_token(node, SyntaxKind::WORD, 0) {
            Some(k) => {
                proof {
                    lemma_token_index(node.children@, SyntaxKind::WORD, 0);
                }
                legacy_value_of(node, k)
            },
            None => None,
        },
    }
}

/// The texts of the `WORD` children of `node`, in order.
pub fn word_texts(node: &SyntaxNode) -> (r: Vec<String>)
    ensures
        string_views(r@) == words(node.children@),
{
    node.token_texts_of_kind(SyntaxKind::WORD)
}

/// All `WORD` children after the leading instruction keyword.
pub fn positional_args(node: &SyntaxNode) -> (r: Vec<String>)
    ensures
        string_views(r@) == positional(node.children@),
{
    let mut w = word_texts(node);
    if w.len() > 0 {
        let ghost before = w@;
        let _first = w.remove(0);
        assert(w@ =~= before.drop_first());
        assert(string_views(w@) =~= string_views(before).drop_first());
    }
    w
}

/// The first argument after the instruction keyword.
pub fn first_positional(node: &SyntaxNode) -> (r: Option<String>)
    ensures
        opt_view(r) == first_of(positional(node.children@)),
{
    let w = positional_args(node);
    if w.len() > 0 {
        assert(string_views(w@)[0] == w@[0]@);
        Some(w[0].clone())
    } else {
        None
    }
}

/// The arguments of an exec form node (see [`exec_args`]).
pub fn exec_form_args(node: &SyntaxNode) -> (r: Vec<String>)
    ensures
        string_views(r@) == exec_args(node.children@),
{
    let c = &node.children;
    let mut args: Vec<String> = Vec::new();
    let mut i: usize = 0;
    while i < c.len()
        invariant
            i <= c@.len(),
            string_views(args@) == exec_args(c@.subrange(0, i as int)),
        decreases c@.len() - i,
    {
        let ghost before = args@;
        assert(c@.subrange(0, i + 1).drop_last() =~= c@.subrange(0, i as int));
        assert(c@.subrange(0, i + 1).last() == c@[i as int]);
        match &c[i] {
            SyntaxElement::Token(t) => {
                if t.kind == SyntaxKind::STRING {
                    args.push(unquote(t.text.as_str()));
                    assert(string_views(args@) =~= string_views(before) + exec_arg(c@[i as int]));
                } else if t.kind == SyntaxKind::WORD {
                    let stripped = strip_list_separators(t.text.as_str());
                    if !stripped.as_str().is_empty() {
                        args.push(stripped);
                        assert(string_views(args@) =~= string_views(before) + exec_arg(c@[i as int]));
                    } else {
                        assert(string_views(args@) =~= string_views(before) + exec_arg(c@[i as int]));
                    }
                } else {
                    assert(string_views(args@) =~= string_views(before) + exec_arg(c@[i as int]));
                }
            },
            SyntaxElement::Node(_) => {
                assert(string_views(args@) =~= string_views(before) + exec_arg(c@[i as int]));
            },
        }
        i += 1;
    }
    assert(c@.subrange(0, c@.len() as int) =~= c@);
    args
}

} // verus!
