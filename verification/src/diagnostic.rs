//! Recoverable problems found while parsing, attached to a source range.

use vstd::prelude::*;
use vstd::string::StringExecFns;

use crate::span::TextRange;

verus! {

/// Severity of a [`Diagnostic`].
#[derive(Debug, Clone, Copy, PartialEq, Eq, Structural, Hash)]
pub enum Severity {
    Error,
    Warning,
    Hint,
}

/// A single problem found while parsing, attached to a source range.
///
/// Parsers accumulate diagnostics rather than aborting, so a `Diagnostic` is
/// data describing a recoverable problem at a location.
#[derive(Debug, Clone, PartialEq, Eq)]
pub struct Diagnostic {
    pub range: TextRange,
    pub severity: Severity,
    pub message: String,
}

/// A diagnostic message: a string slice or an owned string.
pub trait IntoMessage {
    /// The text of the message.
    spec fn message_view(&self) -> Seq<char>;

    fn into_message(self) -> (r: String)
        ensures
            r@ == self.message_view(),
    ;
}

impl<'a> IntoMessage for &'a str {
    open spec fn message_view(&self) -> Seq<char> {
        (*self)@
    }

    fn into_message(self) -> (r: String) {
        String::from_str(self)
    }
}

impl IntoMessage for String {
    open spec fn message_view(&self) -> Seq<char> {
        self@
    }

    fn into_message(self) -> (r: String) {
        self
    }
}

impl Diagnostic {
    pub fn error<M: IntoMessage>(range: TextRange, message: M) -> (d: Diagnostic)
        ensures
            d.range == range,
            d.severity == Severity::Error,
            d.message@ == message.message_view(),
    {
        Diagnostic { range, severity: Severity::Error, message: message.into_message() }
    }

    pub fn warning<M: IntoMessage>(range: TextRange, message: M) -> (d: Diagnostic)
        ensures
            d.range == range,
            d.severity == Severity::Warning,
            d.message@ == message.message_view(),
    {
        Diagnostic { range, severity: Severity::Warning, message: message.into_message() }
    }

    pub fn hint<M: IntoMessage>(range: TextRange, message: M) -> (d: Diagnostic)
        ensures
            d.range == range,
            d.severity == Severity::Hint,
            d.message@ == message.message_view(),
    {
        Diagnostic { range, severity: Severity::Hint, message: message.into_message() }
    }

    pub fn is_error(&self) -> (r: bool)
        ensures
            r == (self.severity == Severity::Error),
    {
        self.severity == Severity::Error
    }
}

/// A diagnostic with its message as a character sequence.
pub struct SDiag {
    pub range: TextRange,
    pub severity: Severity,
    pub message: Seq<char>,
}

pub open spec fn diag_abs(d: Diagnostic) -> SDiag {
    SDiag { range: d.range, severity: d.severity, message: d.message@ }
}

pub open spec fn diags_abs(s: Seq<Diagnostic>) -> Seq<SDiag> {
    s.map_values(|d: Diagnostic| diag_abs(d))
}

} // verus!
