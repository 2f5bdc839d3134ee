//! Source locations and structured diagnostics.

use vstd::prelude::*;

verus! {

/// A half-open byte range `[start, end)` in an authored source text.
#[derive(Clone, Copy, Debug, PartialEq, Eq, Structural)]
pub struct SourceSpan {
    pub start: usize,
    pub end: usize,
}

impl SourceSpan {
    pub fn new(start: usize, end: usize) -> (span: Self)
        ensures
            span.start == start,
            span.end == end,
    {
        SourceSpan { start, end }
    }
}

/// The empty span at the start of the text, which stands for "no particular place".
impl Default for SourceSpan {
    fn default() -> (span: Self)
        ensures
            span.start == 0,
            span.end == 0,
    {
        SourceSpan { start: 0, end: 0 }
    }
}

/// How serious a diagnostic is.
#[derive(Clone, Copy, Debug, PartialEq, Eq, Structural)]
pub enum SourceSeverity {
    Note,
    Warning,
    Error,
}

/// A secondary location that explains a diagnostic.
#[derive(Clone, Debug, PartialEq, Eq)]
pub struct RelatedSpan {
    pub span: SourceSpan,
    pub message: String,
}

/// Stable, structured diagnostic intended for humans, agents, CI and editor adapters.
#[derive(Clone, Debug, PartialEq, Eq)]
pub struct SourceDiagnostic {
    pub code: String,
    pub severity: SourceSeverity,
    pub message: String,
    pub span: SourceSpan,
    pub related: Vec<RelatedSpan>,
    pub hints: Vec<String>,
    pub phase: Option<String>,
}

/// `d` is a fresh diagnostic: the given severity, code, message and span, and nothing else.
pub open spec fn is_fresh_diagnostic(
    d: SourceDiagnostic,
    severity: SourceSeverity,
    code: Seq<char>,
    message: Seq<char>,
    span: SourceSpan,
) -> bool {
    &&& d.code@ == code
    &&& d.severity == severity
    &&& d.message@ == message
    &&& d.span == span
    &&& d.related@.len() == 0
    &&& d.hints@.len() == 0
    &&& d.phase is None
}

impl SourceDiagnostic {
    pub fn error(code: &str, message: &str, span: SourceSpan) -> (d: Self)
        ensures
            is_fresh_diagnostic(d, SourceSeverity::Error, code@, message@, span),
    {
        SourceDiagnostic {
            code: code.to_owned(),
            severity: SourceSeverity::Error,
            message: message.to_owned(),
            span,
            related: Vec::new(),
            hints: Vec::new(),
            phase: None,
        }
    }

    pub fn warning(code: &str, message: &str, span: SourceSpan) -> (d: Self)
        ensures
            is_fresh_diagnostic(d, SourceSeverity::Warning, code@, message@, span),
    {
        SourceDiagnostic {
            code: code.to_owned(),
            severity: SourceSeverity::Warning,
            message: message.to_owned(),
            span,
            related: Vec::new(),
            hints: Vec::new(),
            phase: None,
        }
    }

    /// The same diagnostic with one more hint at the end.
    pub fn hint(self, hint: &str) -> (d: Self)
        ensures
            d.code == self.code,
            d.severity == self.severity,
            d.message == self.message,
            d.span == self.span,
            d.related == self.related,
            d.hints@.len() == self.hints@.len() + 1,
            forall|i: int| 0 <= i < self.hints@.len() ==> #[trigger] d.hints@[i] == self.hints@[i],
            d.hints@.last()@ == hint@,
            d.phase == self.phase,
    {
        let mut d = self;
        d.hints.push(hint.to_owned());
        d
    }

    /// The same diagnostic, attributed to a compiler phase.
    pub fn phase(self, phase: &str) -> (d: Self)
        ensures
            d.code == self.code,
            d.severity == self.severity,
            d.message == self.message,
            d.span == self.span,
            d.related == self.related,
            d.hints == self.hints,
            d.phase is Some,
            d.phase->Some_0@ == phase@,
    {
        let mut d = self;
        d.phase = Some(phase.to_owned());
        d
    }
}

/// A value together with the source range it was read from.
#[derive(Clone, Debug, PartialEq, Eq)]
pub struct Spanned<T> {
    pub value: T,
    pub span: SourceSpan,
}

} // verus!
