//! Lists of error messages attached to source spans.

use vstd::prelude::*;

use crate::format::{write_all, IndentedFormatter};
use crate::span::{location_text, Span, SpanView};
use crate::text::{chars_to_string, decimal, push_chars, push_decimal, push_str};

verus! {

/// Errors past this count are not worth reporting.
pub const MAX_ERRORS: usize = 32;

/// List of errors, each a message and the span it refers to.
pub struct Errors {
    list: Vec<(String, Span)>,
}

/// Message and span of an error.
pub struct ErrorView {
    pub message: Seq<char>,
    pub span: SpanView,
}

impl View for Errors {
    type V = Seq<ErrorView>;

    closed spec fn view(&self) -> Seq<ErrorView> {
        self.list@.map_values(|e: (String, Span)| ErrorView { message: e.0@, span: e.1@ })
    }
}

/// Text of one error: its location when the span has one, then the
/// message.
pub open spec fn error_text(e: ErrorView) -> Seq<char> {
    if e.span.source.name.len() > 0 {
        seq!['a', 't', ' '] + location_text(e.span) + seq![':', ' '] + e.message
    } else {
        e.message
    }
}

/// Pieces written for the errors from `k` on, numbered from `k + 1`.
pub open spec fn listing_pieces(errors: Seq<ErrorView>) -> Seq<Seq<char>>
    decreases errors.len(),
{
    if errors.len() == 0 {
        Seq::empty()
    } else {
        let n = errors.len();
        listing_pieces(errors.drop_last()) + seq![
            seq!['\n', '['] + decimal(n as nat) + seq![']'],
            seq![' '] + error_text(errors.last()),
        ]
    }
}

pub open spec fn four_spaces() -> Seq<char> {
    seq![' ', ' ', ' ', ' ']
}

/// Display text of a list of errors.
pub open spec fn errors_text(errors: Seq<ErrorView>) -> Seq<char> {
    if errors.len() == 0 {
        Seq::empty()
    } else {
        seq!['E', 'r', 'r', 'o', 'r', 's', ':', '\n'] + write_all(
            listing_pieces(errors),
            Seq::empty(),
            four_spaces(),
        ).0 + seq!['\n']
    }
}

/// Debug text of a list of errors.
pub open spec fn errors_debug_text(errors: Seq<ErrorView>) -> Seq<char> {
    if errors.len() == 0 {
        seq!['<', 'N', 'o', 'E', 'r', 'r', 'o', 'r', 's', '>']
    } else {
        seq!['<', 'E', 'r', 'r', 'o', 'r', 's'] + write_all(
            listing_pieces(errors),
            Seq::empty(),
            four_spaces(),
        ).0 + seq!['\n', '>']
    }
}

impl Errors {
    /// Empty list.
    pub fn new() -> (errors: Errors)
        ensures
            errors@.len() == 0,
    {
        Errors { list: Vec::new() }
    }

    /// List with one error without a location.
    pub fn from(error: &str) -> (errors: Errors)
        ensures
            errors@.len() == 1,
            errors@[0].message == error@,
            errors@[0].span.source.name.len() == 0,
            errors@[0].span.length == 0,
    {
        let mut errors = Self::new();
        errors.add(error, Span::default());
        errors
    }

    /// List with one error at `span`.
    pub fn from_at(error: &str, span: Span) -> (errors: Errors)
        ensures
            errors@ == seq![ErrorView { message: error@, span: span@ }],
    {
        let mut errors = Self::new();
        errors.add(error, span);
        errors
    }

    /// True when there are no errors.
    pub fn empty(&self) -> (b: bool)
        ensures
            b == (self@.len() == 0),
    {
        self.list.len() == 0
    }

    /// Number of errors.
    pub fn len(&self) -> (n: usize)
        ensures
            n == self@.len(),
    {
        self.list.len()
    }

    /// Appends all errors of `errors`.
    pub fn append(&mut self, errors: &Errors)
        ensures
            final(self)@ == old(self)@ + errors@,
    {
        let n = errors.list.len();
        let mut i: usize = 0;
        while i < n
            invariant
                0 <= i <= n,
                n == errors@.len(),
                self@ == old(self)@ + errors@.take(i as int),
            decreases n - i,
        {
            let (msg, span) = &errors.list[i];
            let ghost before = self@;
            self.list.push((msg.clone(), span.duplicate()));
            proof {
                assert(self@ == before.push(errors@[i as int]));
                assert(errors@.take(i + 1) == errors@.take(i as int).push(errors@[i as int]));
            }
            i = i + 1;
        }
        assert(errors@.take(n as int) == errors@);
    }

    /// Adds an error at `span`.
    pub fn add(&mut self, error: &str, span: Span)
        ensures
            final(self)@ == old(self)@.push(ErrorView { message: error@, span: span@ }),
    {
        let ghost before = self@;
        self.list.push((error.to_owned(), span));
        assert(self@ == before.push(ErrorView { message: error@, span: span@ }));
    }

    /// Adds an error given as characters.
    pub fn add_chars(&mut self, error: &[char], span: Span)
        ensures
            final(self)@ == old(self)@.push(ErrorView { message: error@, span: span@ }),
    {
        let ghost before = self@;
        self.list.push((chars_to_string(error), span));
        assert(self@ == before.push(ErrorView { message: error@, span: span@ }));
    }

    /// Iterator over the errors, in order.
    pub fn iter(&self) -> (it: ErrorIterator)
        ensures
            it.pending() == self@,
    {
        let mut copy = Errors::new();
        copy.append(self);
        ErrorIterator { next: 0, list: copy.list }
    }

    /// Error `i`.
    pub fn get(&self, i: usize) -> (e: ErrorData)
        requires
            i < self@.len(),
        ensures
            e@ == self@[i as int],
    {
        let (msg, span) = &self.list[i];
        ErrorData { data: msg.clone(), span: span.duplicate() }
    }

    /// Display text: a header and the numbered errors, one per line and
    /// indented; empty when there are no errors.
    pub fn to_string(&self) -> (s: String)
        ensures
            s@ == errors_text(self@),
    {
        if self.list.len() == 0 {
            return String::new();
        }
        let mut out: Vec<char> = Vec::new();
        push_str(&mut out, "Errors:\n");
        proof {
            reveal_strlit("Errors:\n");
        }
        let body = self.write_listing();
        push_chars(&mut out, body.as_slice());
        out.push('\n');
        chars_to_string(out.as_slice())
    }

    /// Debug text: the numbered errors indented inside `<Errors ...>`.
    pub fn to_debug_string(&self) -> (s: String)
        ensures
            s@ == errors_debug_text(self@),
    {
        let mut out: Vec<char> = Vec::new();
        if self.list.len() == 0 {
            push_str(&mut out, "<NoErrors>");
            proof {
                reveal_strlit("<NoErrors>");
            }
            return chars_to_string(out.as_slice());
        }
        push_str(&mut out, "<Errors");
        proof {
            reveal_strlit("<Errors");
        }
        let body = self.write_listing();
        push_chars(&mut out, body.as_slice());
        out.push('\n');
        out.push('>');
        chars_to_string(out.as_slice())
    }

    /// Writes the numbered errors through an indented formatter.
    fn write_listing(&self) -> (out: Vec<char>)
        ensures
            out@ == write_all(listing_pieces(self@), Seq::empty(), four_spaces()).0,
    {
        let mut f = IndentedFormatter::new();
        let n = self.list.len();
        let mut i: usize = 0;
        assert(self@.take(0) == Seq::<ErrorView>::empty());
        while i < n
            invariant
                0 <= i <= n,
                n == self@.len(),
                f@.indent == four_spaces(),
                (f@.output, f@.prefix) == write_all(
                    listing_pieces(self@.take(i as int)),
                    Seq::empty(),
                    four_spaces(),
                ),
            decreases n - i,
        {
            let e = self.get(i);
            let mut head: Vec<char> = Vec::new();
            head.push('\n');
            head.push('[');
            push_decimal(&mut head, i + 1);
            head.push(']');
            let head = chars_to_string(head.as_slice());
            f.write_str(head.as_str());
            let text = e.to_string();
            let mut item: Vec<char> = Vec::new();
            item.push(' ');
            push_str(&mut item, text.as_str());
            let item = chars_to_string(item.as_slice());
            f.write_str(item.as_str());
            proof {
                let t = self@.take(i + 1);
                assert(t.drop_last() == self@.take(i as int));
                assert(t.last() == self@[i as int]);
                let pieces = listing_pieces(t);
                let pre = listing_pieces(self@.take(i as int));
                assert(head@ == seq!['\n', '['] + decimal((i + 1) as nat) + seq![']']);
                assert(item@ == seq![' '] + error_text(self@[i as int]));
                assert(pieces == pre + seq![head@, item@]);
                assert(pieces.drop_last().drop_last() == pre);
                assert(pieces.drop_last().last() == head@);
                assert(pieces.last() == item@);
                let w0 = write_all(pre, Seq::empty(), four_spaces());
                let w1 = write_all(pieces.drop_last(), Seq::empty(), four_spaces());
                assert(w1 == (
                    w0.0 + crate::format::indent_text(head@, w0.1, four_spaces(), head@.len() as int),
                    crate::format::prefix_after(head@, w0.1, four_spaces()),
                ));
            }
            i = i + 1;
        }
        assert(self@.take(n as int) == self@);
        f.output_chars()
    }
}

impl Default for Errors {
    fn default() -> (errors: Errors)
        ensures
            errors@.len() == 0,
    {
        Errors::new()
    }
}

/// One error: message and span.
pub struct ErrorData {
    data: String,
    span: Span,
}

impl View for ErrorData {
    type V = ErrorView;

    closed spec fn view(&self) -> ErrorView {
        ErrorView { message: self.data@, span: self.span@ }
    }
}

impl ErrorData {
    /// Message of the error.
    pub fn message(&self) -> (s: &str)
        ensures
            s@ == self@.message,
    {
        self.data.as_str()
    }

    /// Span of the error.
    pub fn span(&self) -> (s: &Span)
        ensures
            s@ == self@.span,
    {
        &self.span
    }

    /// `at name:line:column: message`, or the message alone when the span
    /// has no location.
    pub fn to_string(&self) -> (s: String)
        ensures
            s@ == error_text(self@),
    {
        let mut out: Vec<char> = Vec::new();
        match self.span.location() {
            Some(loc) => {
                push_str(&mut out, "at ");
                push_str(&mut out, loc.as_str());
                push_str(&mut out, ": ");
                proof {
                    reveal_strlit("at ");
                    reveal_strlit(": ");
                }
            },
            None => {},
        }
        push_str(&mut out, self.data.as_str());
        chars_to_string(out.as_slice())
    }
}

/// Yields the errors of a list in order.
pub struct ErrorIterator {
    next: usize,
    list: Vec<(String, Span)>,
}

impl ErrorIterator {
    #[verifier::type_invariant]
    spec fn inv(self) -> bool {
        self.next <= self.list@.len()
    }

    /// Errors not yet yielded.
    pub closed spec fn pending(&self) -> Seq<ErrorView> {
        self.list@.map_values(|e: (String, Span)| ErrorView { message: e.0@, span: e.1@ }).skip(
            self.next as int,
        )
    }

    /// Yields the next error, if any.
    pub fn next(&mut self) -> (e: Option<ErrorData>)
        ensures
            old(self).pending().len() == 0 ==> e is None && final(self).pending().len() == 0,
            old(self).pending().len() > 0 ==> e is Some && e.unwrap()@ == old(self).pending()[0]
                && final(self).pending() == old(self).pending().drop_first(),
    {
        proof {
            use_type_invariant(&*self);
        }
        let ghost all = self.list@.map_values(
            |e: (String, Span)| ErrorView { message: e.0@, span: e.1@ },
        );
        if self.next < self.list.len() {
            let (msg, span) = &self.list[self.next];
            assert(all[self.next as int] == ErrorView { message: msg@, span: span@ });
            assert(all.skip(self.next as int)[0] == all[self.next as int]);
            assert(all.skip(self.next + 1) == all.skip(self.next as int).drop_first());
            let data = ErrorData { data: msg.clone(), span: span.duplicate() };
            let next = self.next + 1;
            self.next = next;
            Some(data)
        } else {
            None
        }
    }
}

/// Combination of results that keeps all their errors.
pub trait ResultExtension: Sized {
    type Output;

    /// Succeeds with `other` when both succeed; otherwise fails with the
    /// errors of both.
    fn and(self, other: Self) -> Self;

    /// Succeeds with the first success; otherwise fails with the errors of
    /// both.
    fn or(self, other: Self) -> Self;

    /// The value on success; on failure the errors go to `errors` and a
    /// default value is returned.
    fn handle(self, errors: &mut Errors) -> Self::Output;

    /// Fails with `errors` when there are any and the result is a success;
    /// a failure keeps its own errors.
    fn unless(self, errors: Errors) -> Self;
}

/// Errors of a result, none for a success.
pub open spec fn errors_of<T>(r: Result<T, Errors>) -> Seq<ErrorView> {
    match r {
        Ok(_) => Seq::empty(),
        Err(e) => e@,
    }
}

impl<T: Default> ResultExtension for Result<T, Errors> {
    type Output = T;

    fn and(self, other: Self) -> (r: Self)
        ensures
            match (self, other) {
                (Ok(_), o) => r == o,
                (Err(e), Ok(_)) => r matches Err(x) && x@ == e@,
                (Err(e), Err(o)) => r matches Err(x) && x@ == e@ + o@,
            },
    {
        match self {
            Ok(..) => other,
            Err(errors) => match other {
                Ok(..) => Err(errors),
                Err(other) => {
                    let mut errors = errors;
                    errors.append(&other);
                    Err(errors)
                },
            },
        }
    }

    fn or(self, other: Self) -> (r: Self)
        ensures
            match (self, other) {
                (Ok(a), _) => r == Ok::<T, Errors>(a),
                (Err(_), Ok(b)) => r == Ok::<T, Errors>(b),
                (Err(e), Err(o)) => r matches Err(x) && x@ == e@ + o@,
            },
    {
        match self {
            Ok(a) => Ok(a),
            Err(errors) => match other {
                Ok(b) => Ok(b),
                Err(other) => {
                    let mut errors = errors;
                    errors.append(&other);
                    Err(errors)
                },
            },
        }
    }

    fn handle(self, errors: &mut Errors) -> (v: T)
        ensures
            final(errors)@ == old(errors)@ + errors_of(self),
            self matches Ok(x) ==> v == x,
    {
        match self {
            Ok(value) => {
                assert(errors@ + Seq::<ErrorView>::empty() =~= errors@);
                value
            },
            Err(errs) => {
                errors.append(&errs);
                T::default()
            },
        }
    }

    fn unless(self, errors: Errors) -> (r: Self)
        ensures
            errors@.len() == 0 ==> r == self,
            errors@.len() > 0 ==> match self {
                Ok(_) => r matches Err(x) && x@ == errors@,
                Err(_) => r == self,
            },
    {
        if !errors.empty() {
            match self {
                Ok(_) => Err(errors),
                Err(e) => Err(e),
            }
        } else {
            self
        }
    }
}

} // verus!
