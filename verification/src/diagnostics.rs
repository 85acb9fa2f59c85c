//! Diagnostics for the Dockerfile parser pipeline.
//!
//! All errors and warnings produced by the lexer and the parser are reported
//! through [`Diagnostic`].

use vstd::prelude::*;

use crate::text_range::TextRange;

verus! {

/// Severity of a [`Diagnostic`].
#[derive(Debug, Clone, Copy, PartialEq, Eq, Structural, Hash)]
pub enum Severity {
    /// A hard error: the input could not be fully understood at this point.
    Error,
    /// A warning: the input is understandable but suspicious or non-idiomatic.
    Warning,
}

/// A diagnostic message attached to a span of source text.
#[derive(Debug, Clone, PartialEq, Eq)]
pub struct Diagnostic {
    pub severity: Severity,
    pub message: String,
    pub range: TextRange,
    /// Stable rule identifier (e.g. `"DF001"`) used for lints; `None` for
    /// generic parse errors.
    pub code: Option<&'static str>,
}

impl Diagnostic {
    /// An error diagnostic without a code.
    pub fn error(message: String, range: TextRange) -> (d: Diagnostic)
        ensures
            d.severity == Severity::Error,
            d.message@ == message@,
            d.range == range,
            d.code.is_none(),
    {
        Diagnostic { severity: Severity::Error, message, range, code: None }
    }

    /// A warning diagnostic without a code.
    pub fn warning(message: String, range: TextRange) -> (d: Diagnostic)
        ensures
            d.severity == Severity::Warning,
            d.message@ == message@,
            d.range == range,
            d.code.is_none(),
    {
        Diagnostic { severity: Severity::Warning, message, range, code: None }
    }

    /// The same diagnostic, with its rule code set to `code`.
    pub fn with_code(self, code: &'static str) -> (d: Diagnostic)
        ensures
            d.severity == self.severity,
            d.message@ == self.message@,
            d.range == self.range,
            d.code == Some(code),
    {
        let mut d = self;
        d.code = Some(code);
        d
    }

    /// The diagnostic's range as `usize` offsets.
    pub fn span(&self) -> (r: std::ops::Range<usize>)
        ensures
            r.start == self.range.start,
            r.end == self.range.end,
    {
        (self.range.start as usize)..(self.range.end as usize)
    }
}

/// Convenience for callers that produce diagnostics with `usize` offsets.
pub fn range(start: usize, end: usize) -> (r: TextRange)
    requires
        start <= end <= u32::MAX,
    ensures
        r.start == start,
        r.end == end,
{
    TextRange::from_offsets(start, end)
}

} // verus!
