//! Facts about the UTF-8 bytes of a `str`, and slicing a `str` by byte
//! offsets.
//!
//! The lexer works on the bytes of the source; the tree holds `String`s. A
//! byte offset can only cut a `str` where it is a character boundary. Every
//! offset the lexer produces lies next to an ASCII byte (or at either end of
//! the text), and such an offset is always a boundary.

use vstd::prelude::*;
use vstd::string::StringSliceAdditionalSpecFns;
use vstd::utf8::*;

verus! {

/// The UTF-8 bytes of a `str`.
pub open spec fn bytes_of(s: &str) -> Seq<u8> {
    s.spec_bytes()
}

/// `i` is either end of `b`, or it sits before or after an ASCII byte.
pub open spec fn ascii_cut(b: Seq<u8>, i: int) -> bool {
    ||| i == 0
    ||| i == b.len()
    ||| (0 <= i < b.len() && b[i] < 0x80)
    ||| (0 < i < b.len() && b[i - 1] < 0x80)
}

/// The bytes of a `str` are valid UTF-8 and decode back to its characters.
pub proof fn lemma_str_bytes(s: &str)
    ensures
        valid_utf8(bytes_of(s)),
        decode_utf8(bytes_of(s)) == s@,
        is_char_boundary(bytes_of(s), 0),
        is_char_boundary(bytes_of(s), bytes_of(s).len() as int),
{
    encode_utf8_valid_utf8(s@);
    encode_utf8_decode_utf8(s@);
    is_char_boundary_start_end_of_seq(bytes_of(s));
}

/// In valid UTF-8, a cut next to an ASCII byte is a character boundary.
pub proof fn lemma_ascii_cut_is_boundary(b: Seq<u8>, i: int)
    requires
        valid_utf8(b),
        ascii_cut(b, i),
    ensures
        is_char_boundary(b, i),
{
    is_char_boundary_start_end_of_seq(b);
    if i == 0 || i == b.len() {
    } else if 0 <= i < b.len() && b[i] < 0x80 {
        is_char_boundary_iff_not_is_continuation_byte(b, i);
    } else {
        // b[i - 1] is ASCII: the scalar starting there is one byte long, so
        // the remainder after it is valid UTF-8 again and starts at `i`.
        is_char_boundary_iff_not_is_continuation_byte(b, i - 1);
        valid_utf8_split(b, i - 1);
        let t = b.subrange(i - 1, b.len() as int);
        assert(t[0] == b[i - 1]);
        assert(pop_first_scalar(t) =~= b.subrange(i, b.len() as int));
        let u = b.subrange(i, b.len() as int);
        assert(valid_utf8(u));
        assert(is_char_boundary(u, 0));
        is_char_boundary_iff_not_is_continuation_byte(u, 0);
        assert(u[0] == b[i]);
        is_char_boundary_iff_not_is_continuation_byte(b, i);
    }
}

/// A boundary of `b` at or after `a` is a boundary of the suffix of `b`
/// starting at the boundary `a`.
pub proof fn lemma_suffix_boundary(b: Seq<u8>, a: int, i: int)
    requires
        valid_utf8(b),
        0 <= a <= i <= b.len(),
        is_char_boundary(b, a),
        is_char_boundary(b, i),
    ensures
        valid_utf8(b.subrange(a, b.len() as int)),
        is_char_boundary(b.subrange(a, b.len() as int), i - a),
{
    valid_utf8_split(b, a);
    let t = b.subrange(a, b.len() as int);
    is_char_boundary_start_end_of_seq(t);
    if i < b.len() {
        is_char_boundary_iff_not_is_continuation_byte(b, i);
        is_char_boundary_iff_not_is_continuation_byte(t, i - a);
        assert(t[i - a] == b[i]);
    }
}

/// A boundary of `b` at or before the boundary `m` is a boundary of the
/// prefix of `b` ending at `m`.
pub proof fn lemma_prefix_boundary(b: Seq<u8>, m: int, i: int)
    requires
        valid_utf8(b),
        0 <= i <= m <= b.len(),
        is_char_boundary(b, m),
        is_char_boundary(b, i),
    ensures
        valid_utf8(b.subrange(0, m)),
        is_char_boundary(b.subrange(0, m), i),
{
    valid_utf8_split(b, m);
    let t = b.subrange(0, m);
    is_char_boundary_start_end_of_seq(t);
    if i < m {
        is_char_boundary_iff_not_is_continuation_byte(b, i);
        is_char_boundary_iff_not_is_continuation_byte(t, i);
        assert(t[i] == b[i]);
    }
}

/// The piece of `s` between the byte offsets `start` and `end`, both of which
/// must be character boundaries (slicing a `str` elsewhere panics).
pub fn substr(s: &str, start: usize, end: usize) -> (r: &str)
    requires
        start <= end <= bytes_of(s).len(),
        is_char_boundary(bytes_of(s), start as int),
        is_char_boundary(bytes_of(s), end as int),
    ensures
        bytes_of(r) == bytes_of(s).subrange(start as int, end as int),
        r@ == decode_utf8(bytes_of(s).subrange(start as int, end as int)),
{
    proof {
        lemma_str_bytes(s);
        lemma_suffix_boundary(bytes_of(s), start as int, start as int);
        lemma_suffix_boundary(bytes_of(s), start as int, end as int);
    }
    let (_, tail) = s.split_at(start);
    let (mid, _) = tail.split_at(end - start);
    proof {
        assert(bytes_of(mid) =~= bytes_of(s).subrange(start as int, end as int));
        encode_utf8_decode_utf8(mid@);
    }
    mid
}

/// Encoding distributes over concatenation.
pub proof fn lemma_encode_concat(x: Seq<char>, y: Seq<char>)
    ensures
        encode_utf8(x + y) == encode_utf8(x) + encode_utf8(y),
    decreases x.len(),
{
    if x.len() == 0 {
        assert(x + y =~= y);
        assert(encode_utf8(x) =~= Seq::<u8>::empty());
        assert(encode_utf8(x) + encode_utf8(y) =~= encode_utf8(y));
    } else {
        assert((x + y).drop_first() =~= x.drop_first() + y);
        assert((x + y)[0] == x[0]);
        lemma_encode_concat(x.drop_first(), y);
        assert(encode_utf8(x + y) =~= encode_utf8(x) + encode_utf8(y));
    }
}

} // verus!
