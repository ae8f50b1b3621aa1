//! Reports describing problems or occurrences in the source code.
use vstd::prelude::*;

use crate::pos::Span;

verus! {

/// Describes some kind of problem or occurrence in the code. Contains one or
/// more remarks with descriptions and separate code spans.
///
/// This type doesn't provide a textual rendering on its own, since all spans
/// reference an external filemap which needs to be provided (see the
/// `layout` module).
#[derive(Clone, PartialEq, Eq, Debug)]
pub struct Report {
    /// Kind of the report (usually the same as the first remark kind)
    pub kind: ReportKind,
    /// Span of the main code snippet
    pub span: Option<Span>,
    /// List of remarks describing the report
    pub remarks: Vec<Remark>,
}

/// A report can either be an `Error` or a `Warning`.
#[derive(Clone, Copy, PartialEq, Eq, Debug, Structural)]
pub enum ReportKind {
    /// Something went very wrong and will stop further processing
    Error,
    /// Something important should be fixed, but doesn't stop processing
    Warning,
}

/// Part of a Report that describes the occurrence with an optional code
/// snippet.
#[derive(Clone, PartialEq, Eq, Debug)]
pub struct Remark {
    pub kind: RemarkKind,
    /// Remark description
    pub desc: String,
    pub snippet: Snippet,
}

/// Kinds of remarks
#[derive(Clone, Copy, PartialEq, Eq, Debug, Structural)]
pub enum RemarkKind {
    /// Something went very wrong and will stop further processing
    Error,
    /// Something important should be fixed, but doesn't stop processing
    Warning,
    /// Additional information about an error or a warning
    Note,
}

/// The code shown together with a remark.
#[derive(Clone, PartialEq, Eq, Debug)]
pub enum Snippet {
    /// No snippet
    Absent,
    /// Show the original code with this highlighted span
    Orig(Span),
    /// Show original code, but replace a part of it with something new and
    /// highlight the new part. Hint: also able to only insert.
    Replace { span: Span, with: String },
}

/// The span a snippet refers to, if any.
pub open spec fn snippet_span(s: Snippet) -> Option<Span> {
    match s {
        Snippet::Absent => None,
        Snippet::Orig(span) => Some(span),
        Snippet::Replace { span, .. } => Some(span),
    }
}

/// `rem` is a remark of the given kind with the given description and
/// snippet.
pub open spec fn is_remark(rem: Remark, kind: RemarkKind, desc: Seq<char>, snippet: Snippet) -> bool {
    &&& rem.kind == kind
    &&& rem.desc@ == desc
    &&& rem.snippet == snippet
}

/// `rep` is a report of the given kind and span holding exactly one remark
/// with the given kind, description and snippet.
pub open spec fn is_single_report(
    rep: Report,
    kind: ReportKind,
    span: Option<Span>,
    rem_kind: RemarkKind,
    desc: Seq<char>,
    snippet: Snippet,
) -> bool {
    &&& rep.kind == kind
    &&& rep.span == span
    &&& rep.remarks@.len() == 1
    &&& is_remark(rep.remarks@[0], rem_kind, desc, snippet)
}

/// `rep` is the report that `Report::simple_error` builds.
pub open spec fn is_simple_error(rep: Report, msg: Seq<char>, span: Span) -> bool {
    is_single_report(rep, ReportKind::Error, Some(span), RemarkKind::Error, msg, Snippet::Orig(span))
}

impl Report {
    /// Creates a error report with one message and one span
    pub fn simple_error(msg: &str, span: Span) -> (r: Report)
        ensures
            is_simple_error(r, msg@, span),
    {
        Report {
            kind: ReportKind::Error,
            span: Some(span),
            remarks: vec![Remark::error(msg, Snippet::Orig(span))],
        }
    }

    /// Creates a error report with one message, but without span
    pub fn simple_spanless_error(msg: &str) -> (r: Report)
        ensures
            is_single_report(r, ReportKind::Error, None, RemarkKind::Error, msg@, Snippet::Absent),
    {
        Report {
            kind: ReportKind::Error,
            span: None,
            remarks: vec![Remark::error(msg, Snippet::Absent)],
        }
    }

    /// Creates a warning report with one message and one span
    pub fn simple_warning(msg: &str, span: Span) -> (r: Report)
        ensures
            is_single_report(
                r,
                ReportKind::Warning,
                Some(span),
                RemarkKind::Warning,
                msg@,
                Snippet::Orig(span),
            ),
    {
        Report {
            kind: ReportKind::Warning,
            span: Some(span),
            remarks: vec![Remark::warning(msg, Snippet::Orig(span))],
        }
    }

    /// Adds a note without a span/code snippet to the existing Report
    pub fn with_note(self, msg: &str) -> (r: Report)
        ensures
            r.kind == self.kind,
            r.span == self.span,
            r.remarks@.len() == self.remarks@.len() + 1,
            r.remarks@.drop_last() == self.remarks@,
            is_remark(r.remarks@.last(), RemarkKind::Note, msg@, Snippet::Absent),
    {
        self.with_remark(Remark::note(msg, Snippet::Absent))
    }

    /// Adds a note with a span/code snippet to the existing Report
    pub fn with_span_note(self, msg: &str, span: Span) -> (r: Report)
        ensures
            r.kind == self.kind,
            r.span == self.span,
            r.remarks@.len() == self.remarks@.len() + 1,
            r.remarks@.drop_last() == self.remarks@,
            is_remark(r.remarks@.last(), RemarkKind::Note, msg@, Snippet::Orig(span)),
    {
        self.with_remark(Remark::note(msg, Snippet::Orig(span)))
    }

    /// Adds a remark to the returned Report
    pub fn with_remark(self, rem: Remark) -> (r: Report)
        ensures
            r.kind == self.kind,
            r.span == self.span,
            r.remarks@ == self.remarks@.push(rem),
    {
        let mut s = self;
        s.remarks.push(rem);
        s
    }
}

impl Remark {
    /// Creates a new remark with the given parameters
    pub fn new(kind: RemarkKind, desc: &str, snippet: Snippet) -> (r: Remark)
        ensures
            is_remark(r, kind, desc@, snippet),
    {
        Remark { kind: kind, desc: desc.to_owned(), snippet: snippet }
    }

    /// Creates a new remark of kind `Error` with the given parameters
    pub fn error(desc: &str, snippet: Snippet) -> (r: Remark)
        ensures
            is_remark(r, RemarkKind::Error, desc@, snippet),
    {
        Self::new(RemarkKind::Error, desc, snippet)
    }

    /// Creates a new remark of kind `Warning` with the given parameters
    pub fn warning(desc: &str, snippet: Snippet) -> (r: Remark)
        ensures
            is_remark(r, RemarkKind::Warning, desc@, snippet),
    {
        Self::new(RemarkKind::Warning, desc, snippet)
    }

    /// Creates a new remark of kind `Note` with the given parameters
    pub fn note(desc: &str, snippet: Snippet) -> (r: Remark)
        ensures
            is_remark(r, RemarkKind::Note, desc@, snippet),
    {
        Self::new(RemarkKind::Note, desc, snippet)
    }
}

impl Snippet {
    /// True iff the snippet replaces the code of its span.
    pub fn is_replace(&self) -> (r: bool)
        ensures
            r == (*self is Replace),
    {
        match self {
            Snippet::Replace { .. } => true,
            _ => false,
        }
    }

    /// Returns the span if it exists
    pub fn span(&self) -> (r: Option<Span>)
        ensures
            r == snippet_span(*self),
    {
        match self {
            Snippet::Absent => None,
            Snippet::Orig(span) => Some(*span),
            Snippet::Replace { span, .. } => Some(*span),
        }
    }
}

} // verus!
