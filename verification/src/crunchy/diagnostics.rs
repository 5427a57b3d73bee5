//! Diagnostics of the crunchy parser, which never aborts on malformed input:
//! it records a diagnostic with a byte span and goes on.

use vstd::prelude::*;

verus! {

/// Byte range `[start, end)` into the source.
#[derive(Debug, Clone, Copy, PartialEq, Eq, Structural)]
pub struct Span {
    pub start: u32,
    pub end: u32,
}

impl Span {
    pub fn new(start: u32, end: u32) -> (r: Span)
        ensures
            r.start == start,
            r.end == end,
    {
        Span { start, end }
    }
}

#[derive(Debug, Clone, Copy, PartialEq, Eq, Structural)]
pub enum Severity {
    Error,
    Warning,
}

/// A single diagnostic message anchored to a source span.
#[derive(Debug, Clone)]
pub struct Diagnostic {
    pub span: Span,
    pub severity: Severity,
    pub message: String,
}

impl Diagnostic {
    pub fn error(span: Span, message: &str) -> (r: Diagnostic)
        ensures
            r.span == span,
            r.severity == Severity::Error,
            r.message@ == message@,
    {
        Diagnostic { span, severity: Severity::Error, message: String::from_str(message) }
    }

    pub fn warning(span: Span, message: &str) -> (r: Diagnostic)
        ensures
            r.span == span,
            r.severity == Severity::Warning,
            r.message@ == message@,
    {
        Diagnostic { span, severity: Severity::Warning, message: String::from_str(message) }
    }
}

} // verus!
