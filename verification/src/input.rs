//! Input text for the compiler core, read through cursors that track the
//! row, column and indentation of their position.

use vstd::prelude::*;
use vstd::string::StringSliceAdditionalSpecFns;
use vstd::utf8::{decode_utf8, encode_utf8, valid_utf8};

use crate::text::{lossy_utf8, utf8_lossy};

use crate::span::{Source, SourceView, Span as TextSpan, MAX_SOURCE_LEN, TAB_WIDTH};

verus! {

/// Whitespace inside a line, as seen by the lexer.
pub fn is_space(c: char) -> (b: bool)
    ensures
        b == (c == ' ' || c == '\t'),
{
    c == ' ' || c == '\t'
}

/// A named input text, cheap to clone.
pub struct Input {
    source: Source,
}

impl View for Input {
    type V = SourceView;

    closed spec fn view(&self) -> SourceView {
        self.source@
    }
}

impl Input {
    /// Input from a name and a text, which is copied.
    pub fn open_str(name: &str, text: &str) -> (input: Input)
        requires
            text.spec_bytes().len() <= MAX_SOURCE_LEN,
        ensures
            input@.name == name@,
            input@.text == text@,
    {
        Input { source: Source::new(name, text) }
    }

    /// Input from a name and raw bytes, where byte sequences that are not
    /// UTF-8 are replaced. `None` when the text is too large to be a
    /// source.
    pub fn open_bytes(name: &str, data: &[u8]) -> (input: Option<Input>)
        ensures
            match input {
                Some(i) => i@.name == name@ && i@.text == lossy_utf8(data@),
                None => encode_utf8(lossy_utf8(data@)).len() > MAX_SOURCE_LEN,
            },
            input is None <==> encode_utf8(lossy_utf8(data@)).len() > MAX_SOURCE_LEN,
            valid_utf8(data@) ==> (input matches Some(i) ==> i@.text == decode_utf8(data@)),
    {
        let text = utf8_lossy(data);
        if text.as_str().as_bytes().len() <= MAX_SOURCE_LEN {
            Some(Input::open_str(name, text.as_str()))
        } else {
            None
        }
    }

    /// Another handle to the same input.
    pub fn duplicate(&self) -> (input: Input)
        ensures
            input@ == self@,
    {
        Input { source: self.source.duplicate() }
    }

    /// True when both inputs have the same name and text.
    pub fn same_as(&self, other: &Input) -> (b: bool)
        ensures
            b == (self@ == other@),
    {
        let b = crate::token::str_eq(self.source.name(), other.source.name())
            && crate::token::str_eq(self.source.text(), other.source.text());
        proof {
            if b {
                assert(self@ == other@);
            }
        }
        b
    }

    /// Name of the input.
    pub fn name(&self) -> (name: &str)
        ensures
            name@ == self@.name,
    {
        self.source.name()
    }

    /// Length of the input in bytes.
    pub fn len(&self) -> (n: usize)
        ensures
            n == self@.bytes().len(),
    {
        self.source.len()
    }

    /// A cursor at the start of the input.
    pub fn start(&self) -> (c: Cursor)
        ensures
            c@ == (CursorView { src: self@, row: 0, col: 0, offset: 0, indent: 0 }),
    {
        Cursor { span: self.source.span(), row: 0, col: 0, indent: 0 }
    }

    /// Bytes of `span`, which must lie in this input.
    pub fn bytes(&self, span: &Span) -> (bytes: &[u8])
        requires
            span.sta@.offset <= span.end@.offset <= self@.bytes().len(),
        ensures
            bytes@ == self@.bytes().subrange(span.sta@.offset, span.end@.offset),
    {
        let data = self.source.bytes();
        &data[span.sta.offset()..span.end.offset()]
    }

    /// Text of `span`, which must lie in this input.
    pub fn text(&self, span: &Span) -> (text: &str)
        requires
            span.sta@.src == self@,
            span.end@.src == self@,
            span.sta@.offset <= span.end@.offset,
        ensures
            text.spec_bytes() == self@.bytes().subrange(span.sta@.offset, span.end@.offset),
    {
        let sta = span.sta.offset();
        let end = span.end.offset();
        proof {
            use_type_invariant(&span.sta);
            use_type_invariant(&span.end);
            use_type_invariant(&span.sta.span);
            use_type_invariant(&span.end.span);
        }
        self.source.slice(sta, end)
    }
}

/// Position of a [`Cursor`].
pub struct CursorView {
    pub src: SourceView,
    pub row: int,
    pub col: int,
    pub offset: int,
    pub indent: int,
}

/// Row, column and indentation after reading `c` at a position with the
/// given row, column and indentation: a line feed starts a new row, a tab
/// moves to the next multiple of the tab width, and leading whitespace
/// extends the indentation.
pub open spec fn cursor_step(row: int, col: int, indent: int, c: char) -> (int, int, int) {
    if c == '\n' {
        (row + 1, 0, 0)
    } else {
        let new_col = if c == '\t' {
            col + TAB_WIDTH - col % (TAB_WIDTH as int)
        } else {
            col + 1
        };
        let new_indent = if (c == ' ' || c == '\t') && indent == col {
            new_col
        } else {
            indent
        };
        (row, new_col, new_indent)
    }
}

/// Column after a character at column `col`: a tab moves to the next
/// multiple of the tab width, anything else moves by one.
pub open spec fn col_after(col: int, c: char) -> int {
    if c == '\t' {
        col + TAB_WIDTH - col % (TAB_WIDTH as int)
    } else {
        col + 1
    }
}

/// Column reached from `col` over the leading spaces and tabs of `s`.
pub open spec fn leading_width(col: int, s: Seq<char>) -> int
    decreases s.len(),
{
    if s.len() > 0 && (s[0] == ' ' || s[0] == '\t') {
        leading_width(col_after(col, s[0]), s.drop_first())
    } else {
        col
    }
}

/// Row, column and indentation after reading the characters `s` one by
/// one from the given ones.
pub open spec fn read_all(row: int, col: int, indent: int, s: Seq<char>) -> (int, int, int)
    decreases s.len(),
{
    if s.len() == 0 {
        (row, col, indent)
    } else {
        let st = cursor_step(row, col, indent, s[0]);
        read_all(st.0, st.1, st.2, s.drop_first())
    }
}

/// Once a character other than a space or a tab was read on a line, the
/// indentation no longer changes on that line: a step that starts past
/// the indentation keeps it, and stays past it.
pub proof fn lemma_indent_fixed_past_start(row: int, col: int, indent: int, c: char)
    requires
        0 <= indent < col,
        c != '\n',
    ensures
        cursor_step(row, col, indent, c).2 == indent,
        cursor_step(row, col, indent, c).1 > indent,
{
}

proof fn lemma_read_all_past(row: int, col: int, indent: int, s: Seq<char>)
    requires
        0 <= indent < col,
        !s.contains('\n'),
    ensures
        read_all(row, col, indent, s).2 == indent,
    decreases s.len(),
{
    if s.len() > 0 {
        assert(s[0] != '\n') by {
            assert(s.contains(s[0]));
        }
        let st = cursor_step(row, col, indent, s[0]);
        assert(!s.drop_first().contains('\n')) by {
            if s.drop_first().contains('\n') {
                let k = choose|k: int| 0 <= k < s.drop_first().len() && s.drop_first()[k] == '\n';
                assert(s[k + 1] == '\n');
            }
        }
        lemma_read_all_past(st.0, st.1, st.2, s.drop_first());
    }
}

/// The indentation is the width of the line's leading whitespace: reading
/// a line (no line feed) from a position where the indentation equals
/// the column, such as the start of a line, ends with the indentation at
/// the column reached over the leading spaces and tabs, whatever follows
/// them.
pub proof fn lemma_indent_is_leading_width(row: int, col: int, s: Seq<char>)
    requires
        0 <= col,
        !s.contains('\n'),
    ensures
        read_all(row, col, col, s).2 == leading_width(col, s),
    decreases s.len(),
{
    if s.len() > 0 {
        assert(s[0] != '\n') by {
            assert(s.contains(s[0]));
        }
        let st = cursor_step(row, col, col, s[0]);
        assert(!s.drop_first().contains('\n')) by {
            if s.drop_first().contains('\n') {
                let k = choose|k: int| 0 <= k < s.drop_first().len() && s.drop_first()[k] == '\n';
                assert(s[k + 1] == '\n');
            }
        }
        if s[0] == ' ' || s[0] == '\t' {
            assert(st.1 == col_after(col, s[0]) && st.2 == st.1);
            lemma_indent_is_leading_width(st.0, st.1, s.drop_first());
        } else {
            assert(st.2 == col && st.1 == col + 1);
            lemma_read_all_past(st.0, st.1, st.2, s.drop_first());
        }
    }
}

/// The character read at `v`: its next character, with a carriage return
/// read as a line feed.
pub open spec fn read_char(v: CursorView) -> char {
    if v.rest()[0] == '\r' {
        '\n'
    } else {
        v.rest()[0]
    }
}

/// `b` is the position after reading one character at `a`: past the
/// character (and the line feed of a carriage return and line feed pair),
/// with the row, column and indentation updated.
pub open spec fn read_moves(a: CursorView, b: CursorView) -> bool {
    let c = a.rest();
    let crlf = c[0] == '\r' && c.len() > 1 && c[1] == '\n';
    let step = cursor_step(a.row, a.col, a.indent, read_char(a));
    &&& b.src == a.src
    &&& b.rest() == c.skip(if crlf {
        2int
    } else {
        1int
    })
    &&& b.offset > a.offset
    &&& b.row == step.0
    &&& b.col == step.1
    &&& b.indent == step.2
}

/// A position in an [`Input`] from which characters are read.
pub struct Cursor {
    span: TextSpan,
    row: usize,
    col: usize,
    indent: usize,
}

impl View for Cursor {
    type V = CursorView;

    closed spec fn view(&self) -> CursorView {
        CursorView {
            src: self.span@.source,
            row: self.row as int,
            col: self.col as int,
            offset: self.span@.offset,
            indent: self.indent as int,
        }
    }
}

impl CursorView {
    /// Characters from the position to the end of the input.
    pub open spec fn rest(self) -> Seq<char> {
        vstd::utf8::decode_utf8(self.src.bytes().skip(self.offset))
    }
}

impl Cursor {
    #[verifier::type_invariant]
    closed spec fn inv(self) -> bool {
        &&& self.span@.end() == self.span@.bytes().len()
        &&& self.row <= self.span@.offset
        &&& self.indent <= 4 * self.span@.offset
        &&& self.col <= 4 * self.span@.offset
    }

    /// Another cursor at the same position.
    pub fn duplicate(&self) -> (c: Cursor)
        ensures
            c@ == self@,
    {
        proof {
            use_type_invariant(self);
        }
        Cursor { span: self.span.duplicate(), row: self.row, col: self.col, indent: self.indent }
    }

    /// The input.
    pub fn src(&self) -> (src: Input)
        ensures
            src@ == self@.src,
    {
        Input { source: self.span.source().duplicate() }
    }

    /// Zero based row.
    pub fn row(&self) -> (n: usize)
        ensures
            n == self@.row,
    {
        self.row
    }

    /// Zero based column.
    pub fn col(&self) -> (n: usize)
        ensures
            n == self@.col,
    {
        self.col
    }

    /// Byte offset from the start of the input.
    pub fn offset(&self) -> (n: usize)
        ensures
            n == self@.offset,
    {
        self.span.offset()
    }

    /// Width of the leading whitespace of the line up to the position.
    pub fn indent(&self) -> (n: usize)
        ensures
            n == self@.indent,
    {
        self.indent
    }

    /// True at the end of the input.
    pub fn at_end(&self) -> (b: bool)
        ensures
            b == (self@.offset == self@.src.bytes().len()),
    {
        proof {
            use_type_invariant(self);
        }
        self.span.at_end()
    }

    /// Reads the next character. A carriage return, alone or followed by a
    /// line feed, is read as a single line feed.
    pub fn read(&mut self) -> (res: Option<char>)
        ensures
            final(self)@.src == old(self)@.src,
            old(self)@.rest().len() == 0 ==> res is None && final(self)@ == old(self)@,
            old(self)@.rest().len() > 0 ==> res == Some(read_char(old(self)@)) && read_moves(
                old(self)@,
                final(self)@,
            ),
    {
        proof {
            use_type_invariant(&*self);
            use_type_invariant(&self.span);
            assert(self.span@.data() =~= self@.src.bytes().skip(self@.offset));
            if self.span@.length > 0 {
                crate::span::lemma_read_char(self.span@);
            } else {
                assert(self.span@.data().len() == 0);
            }
        }
        let ghost c = self@.rest();
        let mut span = self.span.duplicate();
        let first = span.read();
        let next = match first {
            None => {
                return None;
            },
            Some(ch) => ch,
        };
        proof {
            use_type_invariant(&span);
            assert(span@.data() =~= span@.bytes().skip(span@.offset));
        }
        let mut crlf = false;
        let next = if next == '\r' {
            crlf = span.read_if('\n');
            '\n'
        } else {
            next
        };
        proof {
            use_type_invariant(&span);
            assert(span@.data() =~= span@.bytes().skip(span@.offset));
            if crlf {
                assert(c.skip(2) =~= c.drop_first().drop_first());
            } else {
                assert(c.skip(1) =~= c.drop_first());
            }
            assert(MAX_SOURCE_LEN < usize::MAX / 4 + 1);
        }
        let is_line_indent = self.indent == self.col;
        let (row, col, indent) = if next == '\n' {
            (self.row + 1, 0, 0)
        } else {
            let col = if next == '\t' {
                self.col + (TAB_WIDTH - (self.col % TAB_WIDTH))
            } else {
                self.col + 1
            };
            let indent = if is_space(next) && is_line_indent {
                col
            } else {
                self.indent
            };
            (self.row, col, indent)
        };
        *self = Cursor { span, row, col, indent };
        Some(next)
    }

    /// Reads the next character only when it is `expected`.
    pub fn read_if(&mut self, expected: char) -> (ok: bool)
        ensures
            final(self)@.src == old(self)@.src,
            ok == (old(self)@.rest().len() > 0 && read_char(old(self)@) == expected),
            ok ==> read_moves(old(self)@, final(self)@),
            !ok ==> final(self)@ == old(self)@,
    {
        let mut cursor = self.duplicate();
        match cursor.read() {
            Some(c) => {
                if c == expected {
                    *self = cursor;
                    true
                } else {
                    false
                }
            },
            None => false,
        }
    }

    /// Empty span at the cursor position.
    pub fn pos(&self) -> (span: Span)
        ensures
            span.sta@ == self@,
            span.end@ == self@,
    {
        Span { sta: self.duplicate(), end: self.duplicate() }
    }
}

/// A range of text of an [`Input`], between two cursors.
pub struct Span {
    pub sta: Cursor,
    pub end: Cursor,
}

impl Span {
    /// Another span with the same cursors.
    pub fn duplicate(&self) -> (s: Span)
        ensures
            s.sta@ == self.sta@,
            s.end@ == self.end@,
    {
        Span { sta: self.sta.duplicate(), end: self.end.duplicate() }
    }

    /// Span over both spans: from the start of the earlier one to the end
    /// of the later one. A single span gives an empty span at its start.
    pub fn from_range(a: Option<Span>, b: Option<Span>) -> (res: Option<Span>)
        ensures
            (a is None && b is None) <==> res is None,
            match (a, b) {
                (Some(x), Some(y)) => {
                    let (first, second) = if x.sta@.offset > y.sta@.offset {
                        (y, x)
                    } else {
                        (x, y)
                    };
                    res is Some && res.unwrap().sta@ == first.sta@ && res.unwrap().end@
                        == second.end@
                },
                (Some(x), None) => res is Some && res.unwrap().sta@ == x.sta@ && res.unwrap().end@
                    == x.sta@,
                (None, Some(y)) => res is Some && res.unwrap().sta@ == y.sta@ && res.unwrap().end@
                    == y.sta@,
                (None, None) => true,
            },
        decreases (if a is None { 1int } else { 0int }),
    {
        match a {
            None => match b {
                None => None,
                Some(b) => Span::from_range(Some(b), None),
            },
            Some(a) => match b {
                Some(b) => {
                    let (a, b) = if a.sta.offset() > b.sta.offset() {
                        (b, a)
                    } else {
                        (a, b)
                    };
                    Some(Span { sta: a.sta, end: b.end })
                },
                None => {
                    let sta = a.sta;
                    Some(Span { sta: sta.duplicate(), end: sta })
                },
            },
        }
    }

    /// Input of the span.
    pub fn src(&self) -> (src: Input)
        ensures
            src@ == self.sta@.src,
    {
        self.sta.src()
    }

    /// Text of the span.
    pub fn text(&self) -> (text: &str)
        requires
            self.end@.src == self.sta@.src,
            self.sta@.offset <= self.end@.offset,
        ensures
            text.spec_bytes() == self.sta@.src.bytes().subrange(self.sta@.offset, self.end@.offset),
    {
        let sta = self.sta.offset();
        let end = self.end.offset();
        proof {
            use_type_invariant(&self.sta);
            use_type_invariant(&self.end);
            use_type_invariant(&self.end.span);
            use_type_invariant(&self.sta.span);
        }
        let source = self.sta.span.source();
        source.slice(sta, end)
    }
}

} // verus!
