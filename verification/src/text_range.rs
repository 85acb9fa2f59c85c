//! Byte ranges into a source text.
//!
//! Offsets are `u32`, as in the `text-size` crate: a source longer than
//! `u32::MAX` bytes cannot be described.

use vstd::prelude::*;

verus! {

/// A half-open byte range `start..end` of a source text.
///
/// Well-formed ranges have `start <= end`; [`TextRange::new`] only builds
/// those.
#[derive(Debug, Clone, Copy, PartialEq, Eq, Structural, Hash)]
pub struct TextRange {
    pub start: u32,
    pub end: u32,
}

impl TextRange {
    /// The range `start..end`.
    pub fn new(start: u32, end: u32) -> (r: TextRange)
        requires
            start <= end,
        ensures
            r.start == start,
            r.end == end,
    {
        TextRange { start, end }
    }

    /// The range `start..end` given as `usize` offsets.
    pub fn from_offsets(start: usize, end: usize) -> (r: TextRange)
        requires
            start <= end <= u32::MAX,
        ensures
            r.start == start,
            r.end == end,
    {
        TextRange { start: start as u32, end: end as u32 }
    }

    /// The start offset.
    pub fn start(&self) -> (r: u32)
        ensures
            r == self.start,
    {
        self.start
    }

    /// The end offset.
    pub fn end(&self) -> (r: u32)
        ensures
            r == self.end,
    {
        self.end
    }

    /// The number of bytes covered.
    pub fn len(&self) -> (r: u32)
        requires
            self.start <= self.end,
        ensures
            r == self.end - self.start,
    {
        self.end - self.start
    }

    /// Whether the range covers no byte.
    pub fn is_empty(&self) -> (r: bool)
        ensures
            r == (self.start >= self.end),
    {
        self.start >= self.end
    }
}

} // verus!
