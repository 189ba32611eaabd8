use vstd::prelude::*;

use crate::ids::Span;

verus! {

/// The kind of an error reported by the semantic passes.
#[derive(Debug, Clone, Copy, PartialEq, Eq, Hash)]
pub enum DiagCode {
    T002IncompatibleAssignment,
    T003IncompatibleCallArg,
    T004IncompatibleReturnType,
    T005OperatorNotApplicable,
    T007IfBranchMismatch,
    T008MatchArmMismatch,
    T009ConditionNotBool,
    T010InvalidCast,
    T015ImplicitWidening,
    T016TryInvalid,
    T017InvalidIndex,
    T018UndefinedField,
    T024NonExhaustiveMatch,
    O008UseBeforeInit,
}

/// A message attached to a place in the source.
#[derive(Debug, Clone, PartialEq, Eq)]
pub struct Label {
    pub span: Span,
    pub message: String,
}

/// An error reported to the user: its kind, its message and main place,
/// and the labels, notes and hints that go with it, in order.
#[derive(Debug, Clone, PartialEq, Eq)]
pub struct Diagnostic {
    pub code: DiagCode,
    pub message: String,
    pub span: Span,
    pub labels: Vec<Label>,
    pub notes: Vec<String>,
    pub hints: Vec<String>,
}

/// A diagnostic as plain values.
pub struct DiagView {
    pub code: DiagCode,
    pub message: Seq<char>,
    pub span: Span,
    pub labels: Seq<(Span, Seq<char>)>,
    pub notes: Seq<Seq<char>>,
    pub hints: Seq<Seq<char>>,
}

impl View for Diagnostic {
    type V = DiagView;

    open spec fn view(&self) -> DiagView {
        DiagView {
            code: self.code,
            message: self.message@,
            span: self.span,
            labels: self.labels@.map_values(|l: Label| (l.span, l.message@)),
            notes: self.notes@.map_values(|s: String| s@),
            hints: self.hints@.map_values(|s: String| s@),
        }
    }
}

/// The error `code` with `message` at `span`, and nothing attached yet.
pub open spec fn diag_error(code: DiagCode, message: Seq<char>, span: Span) -> DiagView {
    DiagView { code, message, span, labels: Seq::empty(), notes: Seq::empty(), hints: Seq::empty() }
}

/// `d` with one more label.
pub open spec fn diag_label(d: DiagView, span: Span, message: Seq<char>) -> DiagView {
    DiagView { labels: d.labels.push((span, message)), ..d }
}

/// `d` with one more note.
pub open spec fn diag_note(d: DiagView, note: Seq<char>) -> DiagView {
    DiagView { notes: d.notes.push(note), ..d }
}

/// `d` with one more hint.
pub open spec fn diag_hint(d: DiagView, hint: Seq<char>) -> DiagView {
    DiagView { hints: d.hints.push(hint), ..d }
}

impl Diagnostic {
    /// An error of kind `code` with `message` at `span`.
    pub fn error(code: DiagCode, message: String, span: Span) -> (r: Diagnostic)
        ensures
            r@ == diag_error(code, message@, span),
    {
        let r = Diagnostic {
            code,
            message,
            span,
            labels: Vec::new(),
            notes: Vec::new(),
            hints: Vec::new(),
        };
        assert(r@.labels =~= Seq::empty());
        assert(r@.notes =~= Seq::empty());
        assert(r@.hints =~= Seq::empty());
        r
    }

    /// The diagnostic with a label at `span` added.
    pub fn with_label(self, span: Span, message: String) -> (r: Diagnostic)
        ensures
            r@ == diag_label(self@, span, message@),
    {
        let mut d = self;
        d.labels.push(Label { span, message });
        assert(d@.labels =~= self@.labels.push((span, message@)));
        d
    }

    /// The diagnostic with a note added.
    pub fn with_note(self, note: String) -> (r: Diagnostic)
        ensures
            r@ == diag_note(self@, note@),
    {
        let mut d = self;
        d.notes.push(note);
        assert(d@.notes =~= self@.notes.push(note@));
        d
    }

    /// The diagnostic with a hint added.
    pub fn with_hint(self, hint: String) -> (r: Diagnostic)
        ensures
            r@ == diag_hint(self@, hint@),
    {
        let mut d = self;
        d.hints.push(hint);
        assert(d@.hints =~= self@.hints.push(hint@));
        d
    }
}

} // verus!
