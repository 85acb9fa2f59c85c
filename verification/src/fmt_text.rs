//! Rendering text for diagnostic messages.

use vstd::prelude::*;

verus! {

/// Rust's `Debug` rendering of a string: quoted, with quotes, backslashes
/// and control characters escaped. It depends on the characters alone.
pub uninterp spec fn debug_str(s: Seq<char>) -> Seq<char>;

/// `format!("{:?}", s)`: the `Debug` rendering of `s`.
#[verifier::external_body]
pub(crate) fn debug_quoted(s: &str) -> (r: String)
    ensures
        r@ == debug_str(s@),
{
    format!("{:?}", s)
}

} // verus!
