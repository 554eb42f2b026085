//! Positions, ranges and diagnostics as the editor protocol counts them.
use vstd::prelude::*;

verus! {

/// A 0-based line and column.
#[derive(Clone, Copy, Debug, PartialEq, Eq, Structural)]
pub struct Position {
    pub line: u32,
    pub character: u32,
}

#[derive(Clone, Copy, Debug, PartialEq, Eq, Structural)]
pub struct Range {
    pub start: Position,
    pub end: Position,
}

#[derive(Clone, Copy, Debug, PartialEq, Eq, Structural)]
pub enum DiagnosticSeverity {
    Error,
    Warning,
}

/// A problem reported at a range of a document.
#[derive(Clone, Debug)]
pub struct Diagnostic {
    pub range: Range,
    pub severity: DiagnosticSeverity,
    pub source: String,
    pub message: String,
}

/// A diagnostic as a mathematical value.
pub struct DiagView {
    pub range: Range,
    pub severity: DiagnosticSeverity,
    pub source: Seq<char>,
    pub message: Seq<char>,
}

impl View for Diagnostic {
    type V = DiagView;

    open spec fn view(&self) -> DiagView {
        DiagView { range: self.range, severity: self.severity, source: self.source@, message: self.message@ }
    }
}

impl Diagnostic {
    /// A copy of the diagnostic.
    pub fn clone_diag(&self) -> (r: Diagnostic)
        ensures
            r@ == self@,
    {
        Diagnostic {
            range: self.range,
            severity: self.severity,
            source: self.source.clone(),
            message: self.message.clone(),
        }
    }
}

pub open spec fn pos(line: u32, character: u32) -> Position {
    Position { line, character }
}

pub open spec fn diag_views(v: Seq<Diagnostic>) -> Seq<DiagView> {
    v.map_values(|d: Diagnostic| d@)
}

pub fn position(line: u32, character: u32) -> (p: Position)
    ensures
        p == pos(line, character),
{
    Position { line, character }
}

pub fn range(start: Position, end: Position) -> (r: Range)
    ensures
        r == (Range { start, end }),
{
    Range { start, end }
}

} // verus!
