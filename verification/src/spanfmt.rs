//! Text renderings of spans for messages, under a format setting.

use vstd::prelude::*;
use vstd::string::StringSliceAdditionalSpecFns;
use vstd::utf8::*;

use crate::span::{advance_pos, Span, SpanView};
use crate::text::{chars_to_string, debug_quoted, debug_str, decimal, push_chars, push_decimal, push_str};

verus! {

/// Level of detail of a rendering, from the least detailed.
#[derive(Clone, Copy, Debug, PartialEq, Eq, Structural)]
pub enum Mode {
    Minimal,
    Normal,
    Detail,
}

/// Settings for rendering spans.
pub struct Format {
    mode: Mode,
    separator: String,
    line_width: usize,
}

/// Mathematical view of a [`Format`].
pub struct FormatView {
    pub mode: Mode,
    pub separator: Seq<char>,
    pub line_width: int,
}

impl View for Format {
    type V = FormatView;

    closed spec fn view(&self) -> FormatView {
        FormatView {
            mode: self.mode,
            separator: self.separator@,
            line_width: self.line_width as int,
        }
    }
}

/// Line width of the default format.
pub const DEFAULT_LINE_WIDTH: usize = 100;

impl Format {
    /// Normal mode, no separator, the default line width.
    pub fn new() -> (f: Format)
        ensures
            f@.mode == Mode::Normal,
            f@.separator.len() == 0,
            f@.line_width == DEFAULT_LINE_WIDTH,
    {
        Format { mode: Mode::Normal, separator: String::new(), line_width: DEFAULT_LINE_WIDTH }
    }

    /// The format with another mode.
    pub fn with_mode(&self, mode: Mode) -> (f: Format)
        ensures
            f@ == (FormatView { mode, ..self@ }),
    {
        Format { mode, separator: self.separator.clone(), line_width: self.line_width }
    }

    /// The format with another separator, written before a location.
    pub fn with_separator(&self, separator: &str) -> (f: Format)
        ensures
            f@ == (FormatView { separator: separator@, ..self@ }),
    {
        Format { mode: self.mode, separator: separator.to_owned(), line_width: self.line_width }
    }

    /// The format with another line width.
    pub fn with_line_width(&self, line_width: usize) -> (f: Format)
        ensures
            f@ == (FormatView { line_width: line_width as int, ..self@ }),
    {
        Format { mode: self.mode, separator: self.separator.clone(), line_width }
    }

    pub fn mode(&self) -> (m: Mode)
        ensures
            m == self@.mode,
    {
        self.mode
    }

    pub fn separator(&self) -> (s: &str)
        ensures
            s@ == self@.separator,
    {
        self.separator.as_str()
    }

    pub fn line_width(&self) -> (n: usize)
        ensures
            n == self@.line_width,
    {
        self.line_width
    }
}

/// Number of UTF-8 bytes of a text.
pub open spec fn byte_len(s: Seq<char>) -> int {
    encode_utf8(s).len() as int
}

/// `L{line}:{column}` with one based line and column.
pub open spec fn line_col_text(line: int, column: int) -> Seq<char> {
    seq!['L'] + decimal((line + 1) as nat) + seq![':'] + decimal((column + 1) as nat)
}

/// The span text shortened to `max_width` characters: its head, an
/// ellipsis and its tail.
pub open spec fn shortened(text: Seq<char>, max_width: int) -> Seq<char> {
    let head = max_width * 60 / 100;
    let tail = max_width - head - 1;
    let skip = if byte_len(text) >= tail {
        byte_len(text) - tail
    } else {
        0
    };
    text.take(if head < text.len() {
        head
    } else {
        text.len() as int
    }) + seq!['…'] + text.skip(if skip < text.len() {
        skip
    } else {
        text.len() as int
    })
}

/// The detailed rendering of `v` has to break its text onto a line of
/// its own, which needs a line width above the indentation of that line.
pub open spec fn needs_wide_line(v: SpanView, f: FormatView) -> bool {
    let name_text = seq![' '] + debug_quoted(v.source.name);
    let location = seq![' '] + line_col_text(v.line, v.column);
    let width = 6 + byte_len(name_text) + byte_len(location);
    &&& v.source.name.len() > 0
    &&& f.mode == Mode::Detail
    &&& v.length > 0
    &&& width + v.length + 5 > f.line_width
}

/// Debug rendering of a span.
pub open spec fn debug_text(v: SpanView, f: FormatView) -> Seq<char> {
    let name = v.source.name;
    let length = v.length;
    if name.len() == 0 {
        "<span>"@
    } else if f.mode == Mode::Minimal {
        seq!['<'] + line_col_text(v.line, v.column) + (if length > 0 {
            seq!['+'] + decimal(length as nat)
        } else {
            Seq::empty()
        }) + seq!['>']
    } else {
        let name_text = seq![' '] + debug_quoted(name);
        let location = seq![' '] + line_col_text(v.line, v.column);
        let head = "<span"@ + name_text + location;
        let text = v.chars();
        let width = 6 + byte_len(name_text) + byte_len(location);
        let body = if length > 0 && f.mode == Mode::Detail {
            if width + length + 5 <= f.line_width {
                " = "@ + debug_quoted(text)
            } else {
                let max_width = f.line_width - 8;
                "\n    = "@ + (if length <= max_width {
                    debug_quoted(text)
                } else {
                    debug_quoted(shortened(text, max_width))
                }) + seq!['\n']
            }
        } else if length > 0 {
            seq!['+'] + decimal(length as nat)
        } else {
            Seq::empty()
        };
        head + body + seq!['>']
    }
}

/// Display rendering of a span: its location, empty without a source name.
pub open spec fn display_text(v: SpanView, f: FormatView) -> Seq<char> {
    let name = v.source.name;
    let end = advance_pos(v.pos(), v.data());
    let sta = decimal((v.line + 1) as nat) + seq![':'] + decimal((v.column + 1) as nat);
    let fin = decimal((end.line + 1) as nat) + seq![':'] + decimal((end.column + 1) as nat);
    if name.len() == 0 {
        Seq::empty()
    } else {
        f.separator + match f.mode {
            Mode::Minimal => seq!['L'] + sta,
            Mode::Normal => name + seq![':'] + sta + if v.length > 0 {
                seq!['…'] + fin
            } else {
                Seq::empty()
            },
            Mode::Detail => name + " at L"@ + sta + if v.length > 0 {
                " to L"@ + fin
            } else {
                Seq::empty()
            },
        }
    }
}

fn push_position(out: &mut Vec<char>, line: usize, column: usize)
    requires
        line < usize::MAX,
        column < usize::MAX,
    ensures
        final(out)@ == old(out)@ + (decimal((line + 1) as nat) + seq![':'] + decimal(
            (column + 1) as nat,
        )),
{
    let ghost start = out@;
    push_decimal(out, line + 1);
    out.push(':');
    push_decimal(out, column + 1);
    assert(out@ =~= start + (decimal((line + 1) as nat) + seq![':'] + decimal((column + 1) as nat)));
}

fn push_line_col(out: &mut Vec<char>, line: usize, column: usize)
    requires
        line < usize::MAX,
        column < usize::MAX,
    ensures
        final(out)@ == old(out)@ + line_col_text(line as int, column as int),
{
    let ghost start = out@;
    out.push('L');
    push_decimal(out, line + 1);
    out.push(':');
    push_decimal(out, column + 1);
    assert(out@ =~= start + line_col_text(line as int, column as int));
}

impl Span {
    /// Debug rendering of the span under the format `fmt`.
    pub fn debug_text(&self, fmt: &Format) -> (s: String)
        requires
            needs_wide_line(self@, fmt@) ==> fmt@.line_width > 8,
        ensures
            s@ == debug_text(self@, fmt@),
    {
        proof {
            use_type_invariant(self);
        }
        let name = self.source().name();
        let mut out: Vec<char> = Vec::new();
        if name.unicode_len() == 0 {
            push_str(&mut out, "<span>");
            return chars_to_string(out.as_slice());
        }
        let (line, column) = self.line_column();
        let length = self.len();
        if fmt.mode() == Mode::Minimal {
            out.push('<');
            push_line_col(&mut out, line, column);
            if length > 0 {
                out.push('+');
                push_decimal(&mut out, length);
            }
            out.push('>');
            proof {
                assert(out@ =~= debug_text(self@, fmt@));
            }
            return chars_to_string(out.as_slice());
        }
        let mut name_text: Vec<char> = Vec::new();
        name_text.push(' ');
        let quoted = debug_str(name);
        push_str(&mut name_text, quoted.as_str());
        let mut location: Vec<char> = Vec::new();
        location.push(' ');
        push_line_col(&mut location, line, column);
        push_str(&mut out, "<span");
        push_chars(&mut out, name_text.as_slice());
        push_chars(&mut out, location.as_slice());
        let text = self.text();
        let name_len = chars_to_string(name_text.as_slice()).as_str().as_bytes().len();
        let location_len = chars_to_string(location.as_slice()).as_str().as_bytes().len();
        if length > 0 && fmt.mode() == Mode::Detail {
            let width: u128 = 6 + name_len as u128 + location_len as u128;
            if width + length as u128 + 5 <= fmt.line_width() as u128 {
                push_str(&mut out, " = ");
                let q = debug_str(text);
                push_str(&mut out, q.as_str());
            } else {
                let max_width = fmt.line_width() - 8;
                push_str(&mut out, "\n    = ");
                if length <= max_width {
                    let q = debug_str(text);
                    push_str(&mut out, q.as_str());
                } else {
                    let short = shorten(text, max_width);
                    let q = debug_str(short.as_str());
                    push_str(&mut out, q.as_str());
                }
                out.push('\n');
            }
        } else if length > 0 {
            out.push('+');
            push_decimal(&mut out, length);
        }
        out.push('>');
        proof {
            assert(out@ =~= debug_text(self@, fmt@));
        }
        chars_to_string(out.as_slice())
    }

    /// Display rendering of the span under the format `fmt`.
    pub fn display_text(&self, fmt: &Format) -> (s: String)
        ensures
            s@ == display_text(self@, fmt@),
    {
        proof {
            use_type_invariant(self);
        }
        let name = self.source().name();
        let mut out: Vec<char> = Vec::new();
        if name.unicode_len() == 0 {
            return chars_to_string(out.as_slice());
        }
        let (line, column) = self.line_column();
        let mut end = self.duplicate();
        proof {
            use_type_invariant(&end);
            assert(end@.bytes().subrange(end@.offset, end@.offset + end@.length) =~= end@.data());
        }
        end.advance(self.len());
        proof {
            use_type_invariant(&end);
        }
        let (line_end, column_end) = end.line_column();
        let ghost e = advance_pos(self@.pos(), self@.data());
        let ghost sta = decimal((self@.line + 1) as nat) + seq![':'] + decimal((self@.column + 1) as nat);
        let ghost fin = decimal((e.line + 1) as nat) + seq![':'] + decimal((e.column + 1) as nat);
        push_str(&mut out, fmt.separator());
        let ghost start = out@;
        match fmt.mode() {
            Mode::Minimal => {
                out.push('L');
                push_position(&mut out, line, column);
                assert(out@ =~= start + (seq!['L'] + sta));
            },
            Mode::Normal => {
                push_str(&mut out, name);
                out.push(':');
                push_position(&mut out, line, column);
                let ghost head = out@;
                assert(head =~= start + (self@.source.name + seq![':'] + sta));
                if self.len() > 0 {
                    out.push('…');
                    push_position(&mut out, line_end, column_end);
                    assert(out@ =~= head + (seq!['…'] + fin));
                } else {
                    assert(out@ =~= head + Seq::<char>::empty());
                }
            },
            Mode::Detail => {
                push_str(&mut out, name);
                push_str(&mut out, " at L");
                push_position(&mut out, line, column);
                let ghost head = out@;
                assert(head =~= start + (self@.source.name + " at L"@ + sta));
                if self.len() > 0 {
                    push_str(&mut out, " to L");
                    push_position(&mut out, line_end, column_end);
                    assert(out@ =~= head + (" to L"@ + fin));
                } else {
                    assert(out@ =~= head + Seq::<char>::empty());
                }
            },
        }
        proof {
            assert(out@ =~= display_text(self@, fmt@));
        }
        chars_to_string(out.as_slice())
    }
}

/// `text` shortened to `max_width` characters around an ellipsis.
fn shorten(text: &str, max_width: usize) -> (s: String)
    requires
        max_width > 0,
    ensures
        s@ == shortened(text@, max_width as int),
{
    let head = max_width / 100 * 60 + max_width % 100 * 60 / 100;
    proof {
        assert(head == max_width * 60 / 100) by (nonlinear_arith)
            requires
                head == max_width / 100 * 60 + max_width % 100 * 60 / 100,
                max_width > 0,
        {
            assert(max_width == 100 * (max_width / 100) + max_width % 100);
        }
    }
    let tail = max_width - head - 1;
    let n = text.unicode_len();
    let bytes = text.as_bytes().len();
    let skip: usize = if bytes >= tail {
        bytes - tail
    } else {
        0
    };
    let skip = if skip < n {
        skip
    } else {
        n
    };
    let take = if head < n {
        head
    } else {
        n
    };
    let mut out: Vec<char> = Vec::new();
    let mut i: usize = 0;
    while i < take
        invariant
            0 <= i <= take,
            take <= n,
            n == text@.len(),
            out@ == text@.take(i as int),
        decreases take - i,
    {
        out.push(text.get_char(i));
        i = i + 1;
        assert(out@ =~= text@.take(i as int));
    }
    out.push('…');
    let ghost mid = out@;
    let mut j: usize = skip;
    while j < n
        invariant
            skip <= j <= n,
            n == text@.len(),
            out@ == mid + text@.subrange(skip as int, j as int),
        decreases n - j,
    {
        out.push(text.get_char(j));
        j = j + 1;
        assert(out@ =~= mid + text@.subrange(skip as int, j as int));
    }
    assert(text@.subrange(skip as int, n as int) =~= text@.skip(skip as int));
    chars_to_string(out.as_slice())
}

} // verus!
