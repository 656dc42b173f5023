//! Indented output: text written through an [`IndentedFormatter`] gets the
//! indentation inserted at the start of every line after a line break.

use vstd::prelude::*;

use crate::text::{chars_to_string, push_chars, push_str};

verus! {

/// Output mode of a representation.
#[derive(Clone, Copy, PartialEq, Eq, Debug)]
pub enum ReprMode {
    Debug,
    Display,
}

impl ReprMode {
    pub fn is_debug(&self) -> (b: bool)
        ensures
            b == (*self == ReprMode::Debug),
    {
        match self {
            ReprMode::Debug => true,
            ReprMode::Display => false,
        }
    }

    pub fn is_display(&self) -> (b: bool)
        ensures
            b == (*self == ReprMode::Display),
    {
        match self {
            ReprMode::Debug => false,
            ReprMode::Display => true,
        }
    }
}

/// Character `i` of `s` ends a line: a LF, or a CR not followed by a LF.
pub open spec fn breaks_at(s: Seq<char>, i: int) -> bool {
    s[i] == '\n' || (s[i] == '\r' && !(i + 1 < s.len() && s[i + 1] == '\n'))
}

/// Prefix pending before character `i`: the initial prefix for the first
/// character, the indentation after a line break, nothing otherwise.
pub open spec fn prefix_before(s: Seq<char>, first: Seq<char>, indent: Seq<char>, i: int) -> Seq<
    char,
> {
    if i == 0 {
        first
    } else if breaks_at(s, i - 1) {
        indent
    } else {
        Seq::empty()
    }
}

/// Output for the first `n` characters of `s`.
pub open spec fn indent_text(s: Seq<char>, first: Seq<char>, indent: Seq<char>, n: int) -> Seq<
    char,
>
    decreases n,
{
    if n <= 0 {
        Seq::empty()
    } else {
        indent_text(s, first, indent, n - 1) + prefix_before(s, first, indent, n - 1) + seq![
            s[n - 1],
        ]
    }
}

/// Prefix pending after writing all of `s`.
pub open spec fn prefix_after(s: Seq<char>, first: Seq<char>, indent: Seq<char>) -> Seq<char> {
    if s.len() == 0 {
        first
    } else if breaks_at(s, s.len() - 1) {
        indent
    } else {
        Seq::empty()
    }
}

/// Output and pending prefix after writing each of `pieces` in turn.
pub open spec fn write_all(pieces: Seq<Seq<char>>, first: Seq<char>, indent: Seq<char>) -> (
    Seq<char>,
    Seq<char>,
)
    decreases pieces.len(),
{
    if pieces.len() == 0 {
        (Seq::empty(), first)
    } else {
        let (out, pending) = write_all(pieces.drop_last(), first, indent);
        let s = pieces.last();
        (out + indent_text(s, pending, indent, s.len() as int), prefix_after(s, pending, indent))
    }
}

/// Writes text inserting an indentation after each line break.
pub struct IndentedFormatter {
    indent: Vec<char>,
    prefix: Vec<char>,
    output: Vec<char>,
}

/// Indentation, pending prefix and output written so far.
pub struct IndentedView {
    pub indent: Seq<char>,
    pub prefix: Seq<char>,
    pub output: Seq<char>,
}

impl View for IndentedFormatter {
    type V = IndentedView;

    closed spec fn view(&self) -> IndentedView {
        IndentedView { indent: self.indent@, prefix: self.prefix@, output: self.output@ }
    }
}

impl IndentedFormatter {
    /// Formatter indenting by four spaces, with nothing pending.
    pub fn new() -> (f: IndentedFormatter)
        ensures
            f@.indent == seq![' ', ' ', ' ', ' '],
            f@.prefix.len() == 0,
            f@.output.len() == 0,
    {
        let mut indent = Vec::new();
        push_str(&mut indent, "    ");
        proof {
            reveal_strlit("    ");
        }
        IndentedFormatter { indent, prefix: Vec::new(), output: Vec::new() }
    }

    /// Formatter with the given indentation, with nothing pending.
    pub fn with_indent(indent: &str) -> (f: IndentedFormatter)
        ensures
            f@.indent == indent@,
            f@.prefix.len() == 0,
            f@.output.len() == 0,
    {
        let mut chars = Vec::new();
        push_str(&mut chars, indent);
        IndentedFormatter { indent: chars, prefix: Vec::new(), output: Vec::new() }
    }

    /// Writes `s`: every piece of text that starts a line is preceded by the
    /// pending prefix, which becomes the indentation after a line break.
    pub fn write_str(&mut self, s: &str)
        ensures
            final(self)@.indent == old(self)@.indent,
            final(self)@.output == old(self)@.output + indent_text(
                s@,
                old(self)@.prefix,
                old(self)@.indent,
                s@.len() as int,
            ),
            final(self)@.prefix == prefix_after(s@, old(self)@.prefix, old(self)@.indent),
    {
        let mut chars = Vec::new();
        push_str(&mut chars, s);
        let n = chars.len();
        let mut i: usize = 0;
        let ghost first = self.prefix@;
        let ghost out0 = self.output@;
        while i < n
            invariant
                0 <= i <= n,
                n == chars@.len(),
                chars@ == s@,
                self.indent@ == old(self)@.indent,
                first == old(self)@.prefix,
                out0 == old(self)@.output,
                self.output@ == out0 + indent_text(chars@, first, self.indent@, i as int),
                i > 0 ==> self.prefix@ == (if breaks_at(chars@, i - 1) {
                    self.indent@
                } else {
                    Seq::empty()
                }),
                i == 0 ==> self.prefix@ == first,
            decreases n - i,
        {
            let c = chars[i];
            let ghost before = self.output@;
            assert(self.prefix@ == prefix_before(chars@, first, self.indent@, i as int));
            push_chars(&mut self.output, self.prefix.as_slice());
            self.output.push(c);
            assert(self.output@ == before + prefix_before(chars@, first, self.indent@, i as int)
                + seq![chars@[i as int]]);
            let brk = c == '\n' || (c == '\r' && !(i + 1 < n && chars[i + 1] == '\n'));
            if brk {
                self.prefix = self.indent.clone();
            } else {
                self.prefix = Vec::new();
            }
            i = i + 1;
        }
    }

    /// Text written so far, as characters.
    pub fn output_chars(self) -> (v: Vec<char>)
        ensures
            v@ == self@.output,
    {
        self.output
    }

    /// Text written so far.
    pub fn output(&self) -> (s: String)
        ensures
            s@ == self@.output,
    {
        chars_to_string(self.output.as_slice())
    }
}

/// Renders `value` starting with `prefix` and indenting continuation lines
/// by `indent`. The prefix is written ahead of the indented output, which
/// itself starts with the prefix pending.
pub fn fmt_indented(value: &str, prefix: &str, indent: &str) -> (s: String)
    ensures
        s@ == prefix@ + indent_text(value@, prefix@, indent@, value@.len() as int),
{
    let mut output = IndentedFormatter::with_indent(indent);
    push_str(&mut output.prefix, prefix);
    push_str(&mut output.output, prefix);
    output.write_str(value);
    output.output()
}

/// [`fmt_indented`] for a value rendered in debug form.
pub fn fmt_indented_debug(value: &str, prefix: &str, indent: &str) -> (s: String)
    ensures
        s@ == prefix@ + indent_text(value@, prefix@, indent@, value@.len() as int),
{
    fmt_indented(value, prefix, indent)
}

proof fn lemma_indent_prefix(a: Seq<char>, b: Seq<char>, first: Seq<char>, indent: Seq<char>, n: int)
    requires
        0 <= n <= a.len(),
    ensures
        indent_text(a + b, first, indent, n) == indent_text(a, first, indent, n),
    decreases n,
{
    if n > 0 {
        lemma_indent_prefix(a, b, first, indent, n - 1);
        let c = a + b;
        if n - 1 > 0 {
            assert(c[n - 2] == a[n - 2]);
            assert(c[n - 1] == a[n - 1]);
        }
        assert(c[n - 1] == a[n - 1]);
        assert(prefix_before(c, first, indent, n - 1) == prefix_before(a, first, indent, n - 1));
    }
}

proof fn lemma_indent_suffix(a: Seq<char>, b: Seq<char>, first: Seq<char>, indent: Seq<char>, k: int)
    requires
        0 <= k <= b.len(),
        !(a.len() > 0 && b.len() > 0 && a.last() == '\r' && b[0] == '\n'),
    ensures
        indent_text(a + b, first, indent, a.len() + k) == indent_text(a, first, indent, a.len() as int)
            + indent_text(b, prefix_after(a, first, indent), indent, k),
    decreases k,
{
    let c = a + b;
    let q = prefix_after(a, first, indent);
    if k == 0 {
        lemma_indent_prefix(a, b, first, indent, a.len() as int);
    } else {
        lemma_indent_suffix(a, b, first, indent, k - 1);
        let i = a.len() + k - 1;
        assert(c[i] == b[k - 1]);
        if k - 1 == 0 {
            if a.len() > 0 {
                assert(c[i - 1] == a[a.len() - 1]);
                if c[i - 1] == '\r' {
                    assert(c[i] == b[0]);
                }
            }
        } else {
            assert(c[i - 1] == b[k - 2]);
        }
        assert(prefix_before(c, first, indent, i) == prefix_before(b, q, indent, k - 1));
    }
}

/// Writing `a` and then `b` gives the same output and leaves the same
/// pending prefix as writing `a + b` at once, unless the two writes split a
/// carriage return from the line feed that follows it.
pub proof fn lemma_write_concat(a: Seq<char>, b: Seq<char>, first: Seq<char>, indent: Seq<char>)
    requires
        !(a.len() > 0 && b.len() > 0 && a.last() == '\r' && b[0] == '\n'),
    ensures
        indent_text(a, first, indent, a.len() as int) + indent_text(
            b,
            prefix_after(a, first, indent),
            indent,
            b.len() as int,
        ) == indent_text(a + b, first, indent, (a + b).len() as int),
        prefix_after(b, prefix_after(a, first, indent), indent) == prefix_after(a + b, first, indent),
{
    lemma_indent_suffix(a, b, first, indent, b.len() as int);
    let c = a + b;
    if b.len() > 0 {
        assert(c[c.len() - 1] == b[b.len() - 1]);
        if b.len() > 1 {
            assert(c[c.len() - 2] == b[b.len() - 2]);
        }
    } else {
        assert(c =~= a);
    }
}

} // verus!
