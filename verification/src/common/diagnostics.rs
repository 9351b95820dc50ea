//! What the compiler has to say about a program.
use crate::common::span::Span;
use vstd::prelude::*;
use vstd::string::*;

verus! {

#[derive(Clone, Copy, PartialEq, Eq, Hash, Debug, Structural)]
pub enum Severity {
    Error,
    Warning,
    Note,
}

/// One message about one place of the source.
#[derive(Debug)]
pub struct Diagnostic {
    pub severity: Severity,
    pub code: &'static str,
    pub message: String,
    pub span: Span,
}

/// A diagnostic as a mathematical value.
#[verifier::ext_equal]
pub struct DiagnosticModel {
    pub severity: Severity,
    pub code: Seq<char>,
    pub message: Seq<char>,
    pub span: Span,
}

impl View for Diagnostic {
    type V = DiagnosticModel;

    open spec fn view(&self) -> DiagnosticModel {
        DiagnosticModel {
            severity: self.severity,
            code: self.code@,
            message: self.message@,
            span: self.span,
        }
    }
}

impl Clone for Diagnostic {
    fn clone(&self) -> (copy: Self)
        ensures
            copy@ == self@,
    {
        Diagnostic {
            severity: self.severity,
            code: self.code,
            message: self.message.clone(),
            span: self.span,
        }
    }
}

impl DiagnosticModel {
    pub open spec fn error(code: Seq<char>, message: Seq<char>, span: Span) -> Self {
        DiagnosticModel { severity: Severity::Error, code, message, span }
    }

    pub open spec fn warning(code: Seq<char>, message: Seq<char>, span: Span) -> Self {
        DiagnosticModel { severity: Severity::Warning, code, message, span }
    }

    pub open spec fn note(code: Seq<char>, message: Seq<char>, span: Span) -> Self {
        DiagnosticModel { severity: Severity::Note, code, message, span }
    }
}

/// A node that stands where no well-formed node could be built.
#[derive(Debug)]
pub struct ErrorNode {
    pub message: String,
    pub span: Span,
}

/// An error node as a mathematical value.
#[verifier::ext_equal]
pub struct ErrorModel {
    pub message: Seq<char>,
    pub span: Span,
}

impl View for ErrorNode {
    type V = ErrorModel;

    open spec fn view(&self) -> ErrorModel {
        ErrorModel { message: self.message@, span: self.span }
    }
}

impl Clone for ErrorNode {
    fn clone(&self) -> (copy: Self)
        ensures
            copy@ == self@,
    {
        ErrorNode { message: self.message.clone(), span: self.span }
    }
}

/// The diagnostics of a run, in the order in which they were reported.
#[derive(Debug)]
pub struct DiagnosticBag {
    pub items: Vec<Diagnostic>,
}

impl View for DiagnosticBag {
    type V = Seq<DiagnosticModel>;

    open spec fn view(&self) -> Seq<DiagnosticModel> {
        crate::common::views(self.items@)
    }
}

impl Default for DiagnosticBag {
    fn default() -> (bag: Self)
        ensures
            bag@ == Seq::<DiagnosticModel>::empty(),
    {
        let bag = DiagnosticBag { items: Vec::new() };
        assert(bag@ =~= Seq::<DiagnosticModel>::empty());
        bag
    }
}

impl Clone for DiagnosticBag {
    fn clone(&self) -> (copy: Self)
        ensures
            copy@ == self@,
    {
        let mut copy = DiagnosticBag::default();
        let mut i: usize = 0;
        while i < self.items.len()
            invariant
                i <= self.items@.len(),
                copy@ == self@.take(i as int),
            decreases self.items@.len() - i,
        {
            copy.push(self.items[i].clone());
            assert(copy@ =~= self@.take(i as int + 1));
            i += 1;
        }
        assert(copy@ =~= self@);
        copy
    }
}

impl DiagnosticBag {
    pub fn new() -> (bag: Self)
        ensures
            bag@ == Seq::<DiagnosticModel>::empty(),
    {
        DiagnosticBag::default()
    }

    pub fn push(&mut self, item: Diagnostic)
        ensures
            final(self)@ == old(self)@.push(item@),
    {
        broadcast use crate::common::lemma_views_push;

        self.items.push(item);
    }

    /// Reports an error.
    pub fn error(&mut self, code: &'static str, message: &str, span: Span)
        ensures
            final(self)@ == old(self)@.push(DiagnosticModel::error(code@, message@, span)),
    {
        self.push(
            Diagnostic { severity: Severity::Error, code, message: message.to_owned(), span },
        );
    }

    /// Reports a warning.
    pub fn warning(&mut self, code: &'static str, message: &str, span: Span)
        ensures
            final(self)@ == old(self)@.push(DiagnosticModel::warning(code@, message@, span)),
    {
        self.push(
            Diagnostic { severity: Severity::Warning, code, message: message.to_owned(), span },
        );
    }

    /// Reports a note.
    pub fn note(&mut self, code: &'static str, message: &str, span: Span)
        ensures
            final(self)@ == old(self)@.push(DiagnosticModel::note(code@, message@, span)),
    {
        self.push(Diagnostic { severity: Severity::Note, code, message: message.to_owned(), span });
    }

    /// Reports an error, and gives the node that stands in for what is missing.
    pub fn error_node(&mut self, code: &'static str, message: &str, span: Span) -> (node: ErrorNode)
        ensures
            final(self)@ == old(self)@.push(DiagnosticModel::error(code@, message@, span)),
            node@ == (ErrorModel { message: message@, span }),
    {
        self.error(code, message, span);
        ErrorNode { message: message.to_owned(), span }
    }

    /// Appends the diagnostics of another bag, in their order.
    pub fn extend(&mut self, other: DiagnosticBag)
        ensures
            final(self)@ == old(self)@ + other@,
    {
        let mut i: usize = 0;
        while i < other.items.len()
            invariant
                i <= other.items@.len(),
                self@ == old(self)@ + other@.take(i as int),
            decreases other.items@.len() - i,
        {
            self.push(other.items[i].clone());
            assert(self@ =~= old(self)@ + other@.take(i as int + 1));
            i += 1;
        }
        assert(self@ =~= old(self)@ + other@);
    }

    pub fn len(&self) -> (n: usize)
        ensures
            n == self@.len(),
    {
        self.items.len()
    }

    pub fn is_empty(&self) -> (b: bool)
        ensures
            b == (self@.len() == 0),
    {
        self.items.len() == 0
    }

    /// Whether an error has been reported.
    pub fn has_errors(&self) -> (found: bool)
        ensures
            found == (exists|i: int| 0 <= i < self@.len() && (#[trigger] self@[i]).severity == Severity::Error),
    {
        let mut i: usize = 0;
        while i < self.items.len()
            invariant
                i <= self.items@.len(),
                forall|j: int| 0 <= j < i ==> (#[trigger] self@[j]).severity != Severity::Error,
            decreases self.items@.len() - i,
        {
            if self.items[i].severity == Severity::Error {
                assert(self@[i as int].severity == Severity::Error);
                return true;
            }
            i += 1;
        }
        false
    }
}

} // verus!
