//! Source spans, the backbone of provenance.
//!
//! Every artifact the engine produces (token, AST node, instruction, byte)
//! carries a `Span` pointing back at the source characters it came from.
use vstd::prelude::*;
use crate::fmt::{dec_text, push_dec_u32};

verus! {

/// A half-open byte range `[start, end)` into the source string.
#[derive(Clone, Copy, Debug, PartialEq, Eq, Structural)]
pub struct Span {
    pub start: u32,
    pub end: u32,
}

impl Span {
    pub fn new(start: u32, end: u32) -> (s: Span)
        ensures
            s == (Span { start, end }),
    {
        Span { start, end }
    }

    /// Smallest span covering both `self` and `other`.
    pub fn merge(self, other: Span) -> (s: Span)
        ensures
            s == merged(self, other),
    {
        let start = if self.start <= other.start {
            self.start
        } else {
            other.start
        };
        let end = if self.end >= other.end {
            self.end
        } else {
            other.end
        };
        Span { start, end }
    }
}

/// The smallest span covering both spans.
pub open spec fn merged(a: Span, b: Span) -> Span {
    Span {
        start: if a.start <= b.start {
            a.start
        } else {
            b.start
        },
        end: if a.end >= b.end {
            a.end
        } else {
            b.end
        },
    }
}

/// A compile-time error, tagged with where in the source it happened.
#[derive(Debug, Clone)]
pub struct CompileError {
    pub message: String,
    pub span: Option<Span>,
}

/// The mathematical content of a `CompileError`.
pub struct ErrorView {
    pub message: Seq<char>,
    pub span: Option<Span>,
}

impl View for CompileError {
    type V = ErrorView;

    open spec fn view(&self) -> ErrorView {
        ErrorView { message: self.message@, span: self.span }
    }
}

/// The report of an error at `span`.
pub open spec fn error_at(message: Seq<char>, span: Span) -> ErrorView {
    ErrorView { message, span: Some(span) }
}

/// How an error reads when shown to a user.
pub open spec fn error_text(e: ErrorView) -> Seq<char> {
    match e.span {
        Some(s) => e.message + " (at "@ + dec_text(s.start as int) + ".."@ + dec_text(
            s.end as int,
        ) + ")"@,
        None => e.message,
    }
}

impl CompileError {
    pub fn new(message: String, span: Span) -> (e: CompileError)
        ensures
            e@ == error_at(message@, span),
    {
        CompileError { message, span: Some(span) }
    }

    pub fn no_span(message: String) -> (e: CompileError)
        ensures
            e@ == (ErrorView { message: message@, span: None }),
    {
        CompileError { message, span: None }
    }

    /// The error as shown to a user: the message, then the span if any.
    pub fn to_text(&self) -> (t: String)
        ensures
            t@ == error_text(self@),
    {
        let mut t = self.message.clone();
        match self.span {
            Some(s) => {
                t.append(" (at ");
                push_dec_u32(&mut t, s.start);
                t.append("..");
                push_dec_u32(&mut t, s.end);
                t.append(")");
            },
            None => {},
        }
        t
    }
}

} // verus!
