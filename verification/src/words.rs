//! Reading values out of instruction text: quote removal, exec-form
//! separators, flag names, image references and free-form text.

use vstd::prelude::*;

use crate::chars::{
    back_ws, chars_of, find_char, find_from, index_of, is_white_space, lemma_back_ws,
    lemma_find_from, lemma_skip_ws, lowercase_string, ascii_lower_seq, push_char, skip_ws,
    string_of, string_of_range, trim_bounds, trim_seq, trim_start_seq,
};

verus! {

/// A quote character: `"` or `'`.
pub open spec fn is_quote(c: char) -> bool {
    c == '"' || c == '\''
}

/// `s` with each backslash dropped and the character after it kept as it
/// is; a backslash at the very end stays.
pub open spec fn unescape(s: Seq<char>) -> Seq<char>
    decreases s.len(),
{
    if s.len() == 0 {
        Seq::empty()
    } else if s[0] == '\\' && s.len() >= 2 {
        seq![s[1]] + unescape(s.subrange(2, s.len() as int))
    } else {
        seq![s[0]] + unescape(s.subrange(1, s.len() as int))
    }
}

/// A token's text with one pair of matching surrounding quotes removed;
/// between double quotes, backslash escapes are resolved too. Any other text
/// is kept as it is.
pub open spec fn unquote_text(s: Seq<char>) -> Seq<char> {
    if s.len() >= 2 && is_quote(s[0]) && s[s.len() - 1] == s[0] {
        let inner = s.subrange(1, s.len() - 1);
        if s[0] == '"' {
            unescape(inner)
        } else {
            inner
        }
    } else {
        s
    }
}

/// `unescape(v[lo..hi])` as a `String`.
fn unescape_range(v: &Vec<char>, lo: usize, hi: usize) -> (r: String)
    requires
        lo <= hi <= v@.len(),
    ensures
        r@ == unescape(v@.subrange(lo as int, hi as int)),
{
    let mut out = String::new();
    let mut i = lo;
    while i < hi
        invariant
            lo <= i <= hi <= v@.len(),
            unescape(v@.subrange(lo as int, hi as int)) == out@ + unescape(
                v@.subrange(i as int, hi as int),
            ),
        decreases hi - i,
    {
        let ghost s = v@.subrange(i as int, hi as int);
        let ghost before = out@;
        if v[i] == '\\' && i + 1 < hi {
            push_char(&mut out, v[i + 1]);
            assert(s.subrange(2, s.len() as int) =~= v@.subrange(i + 2, hi as int));
            assert(before + unescape(s) =~= out@ + unescape(v@.subrange(i + 2, hi as int)));
            i += 2;
        } else {
            push_char(&mut out, v[i]);
            assert(s.subrange(1, s.len() as int) =~= v@.subrange(i + 1, hi as int));
            assert(before + unescape(s) =~= out@ + unescape(v@.subrange(i + 1, hi as int)));
            i += 1;
        }
    }
    assert(v@.subrange(hi as int, hi as int) =~= Seq::<char>::empty());
    assert(out@ + Seq::<char>::empty() =~= out@);
    out
}

/// The text of a quoted token without its quotes (see [`unquote_text`]).
pub fn unquote(s: &str) -> (r: String)
    ensures
        r@ == unquote_text(s@),
{
    let v = chars_of(s);
    let n = v.len();
    if n >= 2 && (v[0] == '"' || v[0] == '\'') && v[n - 1] == v[0] {
        if v[0] == '"' {
            unescape_range(&v, 1, n - 1)
        } else {
            string_of_range(&v, 1, n - 1)
        }
    } else {
        string_of(&v)
    }
}

/// Characters stripped from the front of an exec-form word.
pub open spec fn opens_list(c: char) -> bool {
    c == '[' || c == ','
}

/// Characters stripped from the back of an exec-form word.
pub open spec fn closes_list(c: char) -> bool {
    c == ']' || c == ','
}

/// The first index at or after `i` whose character is not `[` or `,`.
pub open spec fn skip_opens(s: Seq<char>, i: int) -> int
    decreases s.len() - i,
{
    if 0 <= i < s.len() && opens_list(s[i]) {
        skip_opens(s, i + 1)
    } else {
        i
    }
}

/// Moving down from `j`, the first index (not below `lo`) that does not
/// follow a `]` or `,`.
pub open spec fn back_closes(s: Seq<char>, j: int, lo: int) -> int
    decreases j - lo,
{
    if lo < j <= s.len() && closes_list(s[j - 1]) {
        back_closes(s, j - 1, lo)
    } else {
        j
    }
}

/// An exec-form word without leading `[`/`,` and trailing `]`/`,`.
pub open spec fn strip_separators(s: Seq<char>) -> Seq<char> {
    let a = skip_opens(s, 0);
    s.subrange(a, back_closes(s, s.len() as int, a))
}

/// `s` without leading `[`/`,` and trailing `]`/`,`.
pub fn strip_list_separators(s: &str) -> (r: String)
    ensures
        r@ == strip_separators(s@),
{
    let v = chars_of(s);
    let mut a: usize = 0;
    while a < v.len() && (v[a] == '[' || v[a] == ',')
        invariant
            a <= v@.len(),
            skip_opens(v@, a as int) == skip_opens(v@, 0),
        decreases v@.len() - a,
    {
        a += 1;
    }
    let mut b: usize = v.len();
    while b > a && (v[b - 1] == ']' || v[b - 1] == ',')
        invariant
            a <= b <= v@.len(),
            skip_opens(v@, 0) == a,
            back_closes(v@, b as int, a as int) == back_closes(v@, v@.len() as int, a as int),
        decreases b - a,
    {
        b -= 1;
    }
    string_of_range(&v, a, b)
}

/// The first index at or after `i` whose character is not `-`.
pub open spec fn skip_dashes(s: Seq<char>, i: int) -> int
    decreases s.len() - i,
{
    if 0 <= i < s.len() && s[i] == '-' {
        skip_dashes(s, i + 1)
    } else {
        i
    }
}

/// `s` without its leading dashes.
pub open spec fn trim_dashes(s: Seq<char>) -> Seq<char> {
    s.subrange(skip_dashes(s, 0), s.len() as int)
}

/// `s` without its leading dashes.
pub fn trim_leading_dashes(s: &str) -> (r: String)
    ensures
        r@ == trim_dashes(s@),
{
    let v = chars_of(s);
    let mut a: usize = 0;
    while a < v.len() && v[a] == '-'
        invariant
            a <= v@.len(),
            skip_dashes(v@, a as int) == skip_dashes(v@, 0),
        decreases v@.len() - a,
    {
        a += 1;
    }
    string_of_range(&v, a, v.len())
}

/// The first `c` of `s` is at `k`.
pub proof fn lemma_index_of_first(s: Seq<char>, c: char, k: int)
    requires
        0 <= k < s.len(),
        s[k] == c,
        forall|j: int| 0 <= j < k ==> s[j] != c,
    ensures
        index_of(s, c) == Some(k),
{
    lemma_find_from(s, c, 0);
}

/// `s` holds no `c`.
pub proof fn lemma_index_of_none(s: Seq<char>, c: char)
    requires
        forall|j: int| 0 <= j < s.len() ==> s[j] != c,
    ensures
        index_of(s, c) is None,
{
    lemma_find_from(s, c, 0);
}

/// The index of the last `c` in `s` before `j`, if any.
pub open spec fn rfind_before(s: Seq<char>, c: char, j: int) -> Option<int>
    decreases j,
{
    if j <= 0 || j > s.len() {
        None
    } else if s[j - 1] == c {
        Some(j - 1)
    } else {
        rfind_before(s, c, j - 1)
    }
}

pub proof fn lemma_rfind_before(s: Seq<char>, c: char, j: int)
    ensures
        rfind_before(s, c, j) matches Some(k) ==> 0 <= k < j && k < s.len() && s[k] == c,
        rfind_before(s, c, j) matches Some(k) ==> forall|m: int| k < m < j ==> #[trigger] s[m] != c,
        j <= s.len() && rfind_before(s, c, j) is None ==> forall|m: int| 0 <= m < j ==> #[trigger] s[m] != c,
    decreases j,
{
    if 0 < j <= s.len() && s[j - 1] != c {
        lemma_rfind_before(s, c, j - 1);
    }
}

/// The index of the last `c` in `s`, if any.
pub open spec fn last_index_of(s: Seq<char>, c: char) -> Option<int> {
    rfind_before(s, c, s.len() as int)
}

/// An image reference split at its first `@`: the part before it and the
/// digest after it.
pub open spec fn split_digest(raw: Seq<char>) -> (Seq<char>, Option<Seq<char>>) {
    match index_of(raw, '@') {
        Some(i) => (raw.subrange(0, i), Some(raw.subrange(i + 1, raw.len() as int))),
        None => (raw, None),
    }
}

/// The part before the digest split at its last `:` into name and tag —
/// when the name is not empty and the tag holds no `/` (a registry's
/// `:port` is no tag).
pub open spec fn split_tag(head: Seq<char>) -> (Seq<char>, Option<Seq<char>>) {
    match last_index_of(head, ':') {
        Some(j) => if j > 0 && !head.subrange(j + 1, head.len() as int).contains('/') {
            (head.subrange(0, j), Some(head.subrange(j + 1, head.len() as int)))
        } else {
            (head, None)
        },
        None => (head, None),
    }
}

/// The index of the last `c` in `v[..hi]`, if any.
pub fn rfind_char(v: &Vec<char>, c: char, hi: usize) -> (r: Option<usize>)
    requires
        hi <= v@.len(),
    ensures
        match r {
            Some(k) => k < hi && rfind_before(v@.subrange(0, hi as int), c, hi as int) == Some(
                k as int,
            ),
            None => rfind_before(v@.subrange(0, hi as int), c, hi as int) is None,
        },
{
    let ghost h = v@.subrange(0, hi as int);
    let mut j = hi;
    while j > 0 && v[j - 1] != c
        invariant
            j <= hi <= v@.len(),
            h == v@.subrange(0, hi as int),
            rfind_before(h, c, j as int) == rfind_before(h, c, hi as int),
        decreases j,
    {
        assert(h[j - 1] == v@[j - 1]);
        j -= 1;
    }
    if j == 0 {
        None
    } else {
        assert(h[j - 1] == v@[j - 1]);
        Some(j - 1)
    }
}

/// The index of the first whitespace character of `s` at or after `i`, if
/// any.
pub open spec fn find_ws(s: Seq<char>, i: int) -> Option<int>
    decreases s.len() - i,
{
    if i < 0 || i >= s.len() {
        None
    } else if is_white_space(s[i]) {
        Some(i)
    } else {
        find_ws(s, i + 1)
    }
}

/// Free-form text after its first word: the text with leading whitespace
/// left out, then everything after its first whitespace character, trimmed;
/// `None` when there is no such character.
pub open spec fn after_first_word(text: Seq<char>) -> Option<Seq<char>> {
    let t = trim_start_seq(text);
    match find_ws(t, 0) {
        Some(i) => Some(trim_seq(t.subrange(i + 1, t.len() as int))),
        None => None,
    }
}

/// A directive comment's name and value: after the leading `#`, the text
/// before the first `=` trimmed and lower-cased, and the text after it
/// trimmed. `None` without the `#` or the `=`.
pub open spec fn directive_name_value(raw: Seq<char>) -> Option<(Seq<char>, Seq<char>)> {
    if raw.len() == 0 || raw[0] != '#' {
        None
    } else {
        let body = raw.subrange(1, raw.len() as int);
        match index_of(body, '=') {
            Some(k) => Some(
                (
                    ascii_lower_seq(trim_seq(body.subrange(0, k))),
                    trim_seq(body.subrange(k + 1, body.len() as int)),
                ),
            ),
            None => None,
        }
    }
}

/// `s[a..c]` is the value after the first `=` of `s`, at `k`, exactly as
/// written: only whitespace lies between the `=` and it and after it, and it
/// neither starts nor ends with whitespace.
pub open spec fn value_piece_at(s: Seq<char>, k: int, a: int, c: int) -> bool {
    &&& 0 <= k < s.len()
    &&& s[k] == '='
    &&& forall|j: int| 0 <= j < k ==> s[j] != '='
    &&& k < a <= c <= s.len()
    &&& forall|m: int| k < m < a ==> is_white_space(#[trigger] s[m])
    &&& forall|m: int| c <= m < s.len() ==> is_white_space(#[trigger] s[m])
    &&& a < c ==> !is_white_space(s[a]) && !is_white_space(s[c - 1])
}

/// Where `trim_seq` cuts: whitespace before and after, none at the ends of
/// what is kept.
pub proof fn lemma_trim_cut(s: Seq<char>) -> (r: (int, int))
    ensures
        0 <= r.0 <= r.1 <= s.len(),
        trim_seq(s) == s.subrange(r.0, r.1),
        forall|m: int| 0 <= m < r.0 ==> is_white_space(#[trigger] s[m]),
        forall|m: int| r.1 <= m < s.len() ==> is_white_space(#[trigger] s[m]),
        r.0 < r.1 ==> !is_white_space(s[r.0]) && !is_white_space(s[r.1 - 1]),
{
    lemma_skip_ws(s, 0);
    let a = skip_ws(s, 0);
    lemma_back_ws(s, s.len() as int, a);
    let c = back_ws(s, s.len() as int, a);
    (a, c)
}

/// The value of a directive comment is its text after the first `=`, as
/// written (no case mapping, nothing else changed), with the whitespace
/// around it left out.
pub proof fn lemma_directive_value_as_written(raw: Seq<char>)
    ensures
        directive_name_value(raw) matches Some((_, v)) ==> exists|k: int, a: int, c: int|
            #[trigger] value_piece_at(raw, k, a, c) && v == raw.subrange(a, c),
{
    if raw.len() > 0 && raw[0] == '#' {
        let body = raw.subrange(1, raw.len() as int);
        lemma_find_from(body, '=', 0);
        if let Some(k) = index_of(body, '=') {
            let tail = body.subrange(k + 1, body.len() as int);
            let (x, y) = lemma_trim_cut(tail);
            let kk = k + 1;
            let a = kk + 1 + x;
            let c = kk + 1 + y;
            assert forall|j: int| 0 <= j < kk implies raw[j] != '=' by {
                if j > 0 {
                    assert(raw[j] == body[j - 1]);
                }
            }
            assert forall|m: int| kk < m < a implies is_white_space(#[trigger] raw[m]) by {
                assert(raw[m] == tail[m - kk - 1]);
            }
            assert forall|m: int| c <= m < raw.len() implies is_white_space(#[trigger] raw[m]) by {
                assert(raw[m] == tail[m - kk - 1]);
            }
            if a < c {
                assert(raw[a] == tail[x]);
                assert(raw[c - 1] == tail[y - 1]);
            }
            assert(raw[kk] == body[k]);
            assert(raw.subrange(a, c) =~= tail.subrange(x, y));
            assert(value_piece_at(raw, kk, a, c));
        }
    }
}

/// The text after the first word of `text` (see [`after_first_word`]).
pub fn rest_after_first_word(text: &str) -> (r: Option<String>)
    ensures
        match r {
            Some(s) => after_first_word(text@) == Some(s@),
            None => after_first_word(text@) is None,
        },
{
    let v = chars_of(text);
    let n = v.len();
    let mut a: usize = 0;
    while a < n && crate::chars::is_whitespace(v[a])
        invariant
            n == v@.len(),
            a <= n,
            skip_ws(v@, a as int) == skip_ws(v@, 0),
        decreases n - a,
    {
        a += 1;
    }
    let ghost t = v@.subrange(a as int, n as int);
    assert(t == trim_start_seq(v@));
    let mut i = a;
    while i < n && !crate::chars::is_whitespace(v[i])
        invariant
            a <= i <= n == v@.len(),
            t == v@.subrange(a as int, n as int),
            find_ws(t, i - a) == find_ws(t, 0),
        decreases n - i,
    {
        assert(t[i - a] == v@[i as int]);
        i += 1;
    }
    if i == n {
        assert(find_ws(t, i - a) is None);
        None
    } else {
        assert(t[i - a] == v@[i as int]);
        assert(find_ws(t, 0) == Some(i - a));
        let (lo, hi) = trim_bounds(&v, i + 1, n);
        assert(t.subrange(i - a + 1, t.len() as int) =~= v@.subrange(i + 1, n as int));
        Some(string_of_range(&v, lo, hi))
    }
}

/// The name and value of a directive comment (see [`directive_name_value`]).
pub fn split_directive(raw: &str) -> (r: Option<(String, String)>)
    ensures
        match r {
            Some((n, v)) => directive_name_value(raw@) == Some((n@, v@)),
            None => directive_name_value(raw@) is None,
        },
{
    let v = chars_of(raw);
    let n = v.len();
    if n == 0 || v[0] != '#' {
        return None;
    }
    let ghost body = v@.subrange(1, n as int);
    match find_char(&v, '=', 1, n) {
        Some(e) => {
            proof {
                assert forall|j: int| 0 <= j < e - 1 implies body[j] != '=' by {
                    assert(body[j] == v@[j + 1]);
                }
                lemma_index_of_first(body, '=', e - 1);
            }
            let (a, b) = trim_bounds(&v, 1, e);
            let name = lowercase_string(&v, a, b);
            let (c, d) = trim_bounds(&v, e + 1, n);
            let value = string_of_range(&v, c, d);
            assert(body.subrange(0, e - 1) =~= v@.subrange(1, e as int));
            assert(body.subrange(e - 1 + 1, body.len() as int) =~= v@.subrange(e + 1, n as int));
            Some((name, value))
        },
        None => {
            proof {
                assert forall|j: int| 0 <= j < body.len() implies body[j] != '=' by {
                    assert(body[j] == v@[j + 1]);
                }
                lemma_index_of_none(body, '=');
            }
            None
        },
    }
}

} // verus!
