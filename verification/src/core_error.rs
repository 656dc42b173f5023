//! Compilation errors of the compiler core, with an optional input span.

use vstd::prelude::*;

use crate::input::{CursorView, Span};

verus! {

/// A compilation error.
pub struct Error {
    message: String,
    span: Option<Span>,
}

/// Mathematical view of an [`Error`]: its message and the cursors of its
/// span.
pub struct ErrorInfo {
    pub message: Seq<char>,
    pub span: Option<(CursorView, CursorView)>,
}

impl View for Error {
    type V = ErrorInfo;

    closed spec fn view(&self) -> ErrorInfo {
        ErrorInfo {
            message: self.message@,
            span: match self.span {
                Some(s) => Some((s.sta@, s.end@)),
                None => None,
            },
        }
    }
}

impl Error {
    /// An error with `message` and no span.
    pub fn new(message: &str) -> (e: Error)
        ensures
            e@.message == message@,
            e@.span is None,
    {
        Error { message: message.to_owned(), span: None }
    }

    /// The message.
    pub fn message(&self) -> (s: &str)
        ensures
            s@ == self@.message,
    {
        self.message.as_str()
    }

    /// Span of the error.
    pub fn span(&self) -> (s: Option<Span>)
        ensures
            match s {
                Some(s) => self@.span == Some((s.sta@, s.end@)),
                None => self@.span is None,
            },
    {
        match &self.span {
            Some(s) => Some(s.duplicate()),
            None => None,
        }
    }

    /// The error located at `span`.
    pub fn at(self, span: Span) -> (e: Error)
        ensures
            e@.message == self@.message,
            e@.span == Some((span.sta@, span.end@)),
    {
        Error { message: self.message, span: Some(span) }
    }

    /// A copy of the error.
    pub fn duplicate(&self) -> (e: Error)
        ensures
            e@ == self@,
    {
        Error { message: self.message.clone(), span: self.span() }
    }
}

/// A list of errors, in the order they were added.
pub struct ErrorList {
    list: Vec<Error>,
}

impl View for ErrorList {
    type V = Seq<ErrorInfo>;

    closed spec fn view(&self) -> Seq<ErrorInfo> {
        self.list@.map_values(|e: Error| e@)
    }
}

impl ErrorList {
    /// An empty list.
    pub fn new() -> (l: ErrorList)
        ensures
            l@.len() == 0,
    {
        ErrorList { list: Vec::new() }
    }

    /// True when there are no errors.
    pub fn empty(&self) -> (b: bool)
        ensures
            b == (self@.len() == 0),
    {
        self.list.len() == 0
    }

    /// Adds an error at the end.
    pub fn add(&mut self, error: Error)
        ensures
            final(self)@ == old(self)@.push(error@),
    {
        self.list.push(error);
        assert(self@ =~= old(self)@.push(error@));
    }

    /// Copies of the errors, in order.
    pub fn list(&self) -> (l: Vec<Error>)
        ensures
            l@.len() == self@.len(),
            forall|j: int| 0 <= j < l@.len() ==> (#[trigger] l@[j])@ == self@[j],
    {
        let mut out: Vec<Error> = Vec::new();
        let mut i: usize = 0;
        while i < self.list.len()
            invariant
                0 <= i <= self.list@.len(),
                out@.len() == i,
                self@.len() == self.list@.len(),
                forall|j: int| 0 <= j < i ==> (#[trigger] out@[j])@ == self@[j],
            decreases self.list@.len() - i,
        {
            out.push(self.list[i].duplicate());
            assert(self@[i as int] == self.list@[i as int]@);
            i = i + 1;
        }
        out
    }

    /// Adds an error with `message` at `span`.
    pub fn at(&mut self, span: Span, message: &str)
        ensures
            final(self)@ == old(self)@.push(
                ErrorInfo { message: message@, span: Some((span.sta@, span.end@)) },
            ),
    {
        self.add(Error::new(message).at(span))
    }
}

} // verus!
