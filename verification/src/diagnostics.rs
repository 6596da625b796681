//! Compiler diagnostics produced by the AMIR passes.

use vstd::prelude::*;
use crate::amir::Span;

verus! {

/// `String::push_str` (std, which vstd leaves unspecified): claimed to leave
/// the characters of `s` followed by those of `other`, as std documents.
pub assume_specification[ String::push_str ](s: &mut String, other: &str)
    ensures
        final(s)@ == old(s)@ + other@,
;

/// `String::push` (std, which vstd leaves unspecified): claimed to leave the
/// characters of `s` followed by `ch`, as std documents.
pub assume_specification[ String::push ](s: &mut String, ch: char)
    ensures
        final(s)@ == old(s)@.push(ch),
;

#[derive(Clone, Copy, Debug, PartialEq, Eq, Structural)]
pub enum DiagCode {
    /// Internal compiler error in an optimization pass.
    ICEO001,
    O001UseAfterMove,
    O004GenerationalFallback,
    O005DoubleFree,
    O007InconsistentMoveBetweenBranches,
    O010EscapeOfBorrowedValue,
}

#[derive(Clone, Copy, Debug, PartialEq, Eq, Structural)]
pub enum Severity {
    Error,
    Warning,
    Note,
    Ice,
}

/// A span the diagnostic points at, with what it says there.
#[derive(Clone, Debug)]
pub struct DiagLabel {
    pub span: Span,
    pub message: String,
}

#[derive(Clone, Debug)]
pub struct Diagnostic {
    pub code: DiagCode,
    pub severity: Severity,
    pub message: String,
    pub span: Span,
    pub notes: Vec<String>,
    pub labels: Vec<DiagLabel>,
    pub hints: Vec<String>,
}

impl Diagnostic {
    /// An internal compiler error.
    pub fn ice(code: DiagCode, message: String, span: Span) -> (d: Diagnostic)
        ensures
            d.code == code,
            d.severity == Severity::Ice,
            d.message@ == message@,
            d.span == span,
            d.notes@.len() == 0,
            d.labels@.len() == 0,
            d.hints@.len() == 0,
    {
        Diagnostic { code, severity: Severity::Ice, message, span, notes: Vec::new(), labels: Vec::new(), hints: Vec::new() }
    }

    /// An error.
    pub fn error(code: DiagCode, message: String, span: Span) -> (d: Diagnostic)
        ensures
            d.code == code,
            d.severity == Severity::Error,
            d.message@ == message@,
            d.span == span,
            d.notes@.len() == 0,
            d.labels@.len() == 0,
            d.hints@.len() == 0,
    {
        Diagnostic { code, severity: Severity::Error, message, span, notes: Vec::new(), labels: Vec::new(), hints: Vec::new() }
    }

    /// A note.
    pub fn note(code: DiagCode, message: String, span: Span) -> (d: Diagnostic)
        ensures
            d.code == code,
            d.severity == Severity::Note,
            d.message@ == message@,
            d.span == span,
            d.notes@.len() == 0,
            d.labels@.len() == 0,
            d.hints@.len() == 0,
    {
        Diagnostic { code, severity: Severity::Note, message, span, notes: Vec::new(), labels: Vec::new(), hints: Vec::new() }
    }

    /// The same diagnostic with one more note.
    pub fn with_note(self, note: String) -> (d: Diagnostic)
        ensures
            d.code == self.code,
            d.severity == self.severity,
            d.message@ == self.message@,
            d.span == self.span,
            d.notes@ == self.notes@.push(note),
            d.labels@ == self.labels@,
            d.hints@ == self.hints@,
    {
        let mut d = self;
        d.notes.push(note);
        d
    }

    /// The same diagnostic pointing at one more span.
    pub fn with_label(self, span: Span, message: String) -> (d: Diagnostic)
        ensures
            d.code == self.code,
            d.severity == self.severity,
            d.message@ == self.message@,
            d.span == self.span,
            d.notes@ == self.notes@,
            d.labels@ == self.labels@.push(DiagLabel { span, message }),
            d.hints@ == self.hints@,
    {
        let mut d = self;
        d.labels.push(DiagLabel { span, message });
        d
    }

    /// The same diagnostic with one more hint.
    pub fn with_hint(self, hint: String) -> (d: Diagnostic)
        ensures
            d.code == self.code,
            d.severity == self.severity,
            d.message@ == self.message@,
            d.span == self.span,
            d.notes@ == self.notes@,
            d.labels@ == self.labels@,
            d.hints@ == self.hints@.push(hint),
    {
        let mut d = self;
        d.hints.push(hint);
        d
    }
}

/// The decimal digits of `n`.
pub open spec fn decimal(n: nat) -> Seq<char>
    decreases n,
{
    if n < 10 {
        seq![digit_char(n)]
    } else {
        decimal(n / 10).push(digit_char(n % 10))
    }
}

pub open spec fn digit_char(d: nat) -> char {
    if d == 0 { '0' } else if d == 1 { '1' } else if d == 2 { '2' } else if d == 3 { '3' }
    else if d == 4 { '4' } else if d == 5 { '5' } else if d == 6 { '6' } else if d == 7 { '7' }
    else if d == 8 { '8' } else { '9' }
}

fn digit(d: usize) -> (c: char)
    requires
        d < 10,
    ensures
        c == digit_char(d as nat),
{
    if d == 0 { '0' } else if d == 1 { '1' } else if d == 2 { '2' } else if d == 3 { '3' }
    else if d == 4 { '4' } else if d == 5 { '5' } else if d == 6 { '6' } else if d == 7 { '7' }
    else if d == 8 { '8' } else { '9' }
}

/// Appends the decimal digits of `n` to `s`.
pub fn push_decimal(s: &mut String, n: usize)
    ensures
        final(s)@ == old(s)@ + decimal(n as nat),
    decreases n,
{
    if n >= 10 {
        push_decimal(s, n / 10);
    }
    s.push(digit(n % 10));
    proof {
        if n >= 10 {
            assert(decimal(n as nat) == decimal((n / 10) as nat).push(digit_char((n % 10) as nat)));
        }
    }
}

} // verus!
