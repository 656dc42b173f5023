//! Text representations of core values, in a mode and a format.

use vstd::prelude::*;

use crate::input::{Cursor, Input};
use crate::text::{chars_to_string, decimal, push_decimal, push_str};

verus! {

/// Whether a representation is for debugging or for display.
#[derive(Clone, Copy, Debug, PartialEq, Eq, Structural)]
pub enum ReprMode {
    Debug,
    Display,
}

/// Amount of detail of a representation, from the least detailed.
#[derive(Clone, Copy, Debug, PartialEq, Eq, Structural)]
pub enum ReprFormat {
    Minimal,
    Compact,
    Full,
}

impl ReprFormat {
    pub open spec fn level(self) -> int {
        match self {
            ReprFormat::Minimal => 0,
            ReprFormat::Compact => 1,
            ReprFormat::Full => 2,
        }
    }

    /// More detailed than `other`.
    pub fn above(&self, other: ReprFormat) -> (b: bool)
        ensures
            b == (self.level() > other.level()),
    {
        let a: u8 = match self {
            ReprFormat::Minimal => 0,
            ReprFormat::Compact => 1,
            ReprFormat::Full => 2,
        };
        let b: u8 = match other {
            ReprFormat::Minimal => 0,
            ReprFormat::Compact => 1,
            ReprFormat::Full => 2,
        };
        a > b
    }
}

/// An output buffer with the mode and format of the representation being
/// written.
pub struct Repr {
    mode: ReprMode,
    format: ReprFormat,
    buffer: Vec<char>,
}

impl Repr {
    pub closed spec fn mode_of(self) -> ReprMode {
        self.mode
    }

    pub closed spec fn format_of(self) -> ReprFormat {
        self.format
    }

    /// Text written so far.
    pub closed spec fn output(self) -> Seq<char> {
        self.buffer@
    }

    /// An empty output.
    pub fn new(mode: ReprMode, format: ReprFormat) -> (r: Repr)
        ensures
            r.mode_of() == mode,
            r.format_of() == format,
            r.output().len() == 0,
    {
        Repr { mode, format, buffer: Vec::new() }
    }

    /// The same output with another mode and format.
    pub fn with(self, mode: ReprMode, format: ReprFormat) -> (r: Repr)
        ensures
            r.mode_of() == mode,
            r.format_of() == format,
            r.output() == self.output(),
    {
        Repr { mode, format, buffer: self.buffer }
    }

    pub fn mode(&self) -> (m: ReprMode)
        ensures
            m == self.mode_of(),
    {
        self.mode
    }

    pub fn format(&self) -> (f: ReprFormat)
        ensures
            f == self.format_of(),
    {
        self.format
    }

    pub fn is_debug(&self) -> (b: bool)
        ensures
            b == (self.mode_of() == ReprMode::Debug),
    {
        self.mode == ReprMode::Debug
    }

    /// Appends `text` to the output.
    pub fn write(&mut self, text: &str)
        ensures
            final(self).mode_of() == old(self).mode_of(),
            final(self).format_of() == old(self).format_of(),
            final(self).output() == old(self).output() + text@,
    {
        push_str(&mut self.buffer, text);
    }

    /// The text written.
    pub fn text(&self) -> (s: String)
        ensures
            s@ == self.output(),
    {
        chars_to_string(self.buffer.as_slice())
    }
}

/// Values with a text representation.
pub trait HasRepr {
    /// The representation of the value in a mode and a format.
    spec fn repr_text(&self, mode: ReprMode, format: ReprFormat) -> Seq<char>;

    /// Writes the representation of the value to `output`.
    fn output_repr(&self, output: &mut Repr)
        ensures
            final(output).mode_of() == old(output).mode_of(),
            final(output).format_of() == old(output).format_of(),
            final(output).output() == old(output).output() + self.repr_text(
                old(output).mode_of(),
                old(output).format_of(),
            ),
    ;
}

/// Representation of an input: its name, in debug mode wrapped in
/// `Input(..)` and in the full format with its size.
pub open spec fn input_repr(name: Seq<char>, len: nat, mode: ReprMode, format: ReprFormat) -> Seq<char> {
    if mode == ReprMode::Debug && format == ReprFormat::Full {
        "Input("@ + name + " -- "@ + decimal(len) + " bytes)"@
    } else if mode == ReprMode::Debug {
        "Input("@ + name + ")"@
    } else {
        name
    }
}

/// A number with at least two digits.
pub open spec fn two_digits(n: nat) -> Seq<char> {
    if n < 10 {
        seq!['0'] + decimal(n)
    } else {
        decimal(n)
    }
}

/// Representation of a position: `line L, column C` for display in a
/// detailed format, else `L` followed by `line:column`.
pub open spec fn cursor_repr(row: int, col: int, mode: ReprMode, format: ReprFormat) -> Seq<char> {
    let line = (row + 1) as nat;
    let column = (col + 1) as nat;
    if mode != ReprMode::Debug && format.level() > ReprFormat::Compact.level() {
        "line "@ + decimal(line) + ", column "@ + decimal(column)
    } else {
        (if format.level() > ReprFormat::Minimal.level() {
            seq!['L']
        } else {
            Seq::empty()
        }) + decimal(line) + seq![':'] + two_digits(column)
    }
}

impl Input {
    /// Writes the representation of the input.
    pub fn write_repr(&self, output: &mut Repr)
        ensures
            final(output).mode_of() == old(output).mode_of(),
            final(output).format_of() == old(output).format_of(),
            final(output).output() == old(output).output() + input_repr(
                self@.name,
                self@.bytes().len(),
                old(output).mode_of(),
                old(output).format_of(),
            ),
    {
        let debug = output.is_debug();
        let full = debug && output.format() == ReprFormat::Full;
        let mut out: Vec<char> = Vec::new();
        if full {
            push_str(&mut out, "Input(");
            push_str(&mut out, self.name());
            push_str(&mut out, " -- ");
            push_decimal(&mut out, self.len());
            push_str(&mut out, " bytes)");
        } else if debug {
            push_str(&mut out, "Input(");
            push_str(&mut out, self.name());
            push_str(&mut out, ")");
        } else {
            push_str(&mut out, self.name());
        }
        assert(out@ =~= input_repr(self@.name, self@.bytes().len(), output.mode_of(), output.format_of()));
        let text = chars_to_string(out.as_slice());
        output.write(text.as_str());
    }
}

impl HasRepr for Input {
    open spec fn repr_text(&self, mode: ReprMode, format: ReprFormat) -> Seq<char> {
        input_repr(self@.name, self@.bytes().len(), mode, format)
    }

    fn output_repr(&self, output: &mut Repr) {
        self.write_repr(output)
    }
}

impl Cursor {
    /// Writes the representation of the cursor position.
    pub fn write_repr(&self, output: &mut Repr)
        requires
            self@.row < usize::MAX,
            self@.col < usize::MAX,
        ensures
            final(output).mode_of() == old(output).mode_of(),
            final(output).format_of() == old(output).format_of(),
            final(output).output() == old(output).output() + cursor_repr(
                self@.row,
                self@.col,
                old(output).mode_of(),
                old(output).format_of(),
            ),
    {
        let line = self.row() + 1;
        let column = self.col() + 1;
        let mut out: Vec<char> = Vec::new();
        if !output.is_debug() && output.format().above(ReprFormat::Compact) {
            push_str(&mut out, "line ");
            push_decimal(&mut out, line);
            push_str(&mut out, ", column ");
            push_decimal(&mut out, column);
        } else {
            if output.format().above(ReprFormat::Minimal) {
                out.push('L');
            }
            push_decimal(&mut out, line);
            out.push(':');
            if column < 10 {
                out.push('0');
            }
            push_decimal(&mut out, column);
        }
        assert(out@ =~= cursor_repr(self@.row, self@.col, output.mode_of(), output.format_of()));
        let text = chars_to_string(out.as_slice());
        output.write(text.as_str());
    }
}

} // verus!
