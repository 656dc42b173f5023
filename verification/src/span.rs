//! Sources of program text and spans over them: a span is a byte range of a
//! source together with the line, column and indentation of its start, and
//! works as a reading cursor over the source text.

use std::sync::Arc;
use vstd::prelude::*;
use vstd::string::StringSliceAdditionalSpecFns;
use vstd::utf8::*;

use crate::chars::{at_boundary, char_size, check_line_break, check_space, lemma_char_size_bounds, lemma_cont_run_end_bounds, lemma_valid_start_boundary, spec_char_size, spec_check_line_break, spec_check_space};
use crate::text::{chars_to_string, decimal, push_decimal, push_str, str_from_utf8};

verus! {

broadcast use vstd::utf8::encode_utf8_valid_utf8, vstd::utf8::encode_utf8_decode_utf8;

/// Tab width used to compute columns and indentation.
pub const TAB_WIDTH: usize = 4;

/// Largest source text, in bytes, for which column arithmetic cannot
/// overflow.
pub const MAX_SOURCE_LEN: usize = usize::MAX / 4;

struct SourceData {
    name: String,
    text: String,
}

/// A named input text, cheap to clone.
pub struct Source {
    data: Arc<SourceData>,
}

/// Name and text of a [`Source`].
pub struct SourceView {
    pub name: Seq<char>,
    pub text: Seq<char>,
}

impl SourceView {
    /// UTF-8 encoding of the text.
    pub open spec fn bytes(self) -> Seq<u8> {
        encode_utf8(self.text)
    }
}

impl View for Source {
    type V = SourceView;

    closed spec fn view(&self) -> SourceView {
        SourceView { name: self.data.name@, text: self.data.text@ }
    }
}

impl Source {
    #[verifier::type_invariant]
    pub closed spec fn inv(self) -> bool {
        self@.bytes().len() <= MAX_SOURCE_LEN
    }

    /// Creates a source from a name and its text.
    pub fn new(name: &str, text: &str) -> (src: Source)
        requires
            text.spec_bytes().len() <= MAX_SOURCE_LEN,
        ensures
            src@.name == name@,
            src@.text == text@,
    {
        Source { data: Arc::new(SourceData { name: name.to_owned(), text: text.to_owned() }) }
    }

    /// An unnamed empty source.
    pub fn empty() -> (src: Source)
        ensures
            src@.name.len() == 0,
            src@.text.len() == 0,
    {
        let name = String::new();
        let text = String::new();
        Source { data: Arc::new(SourceData { name, text }) }
    }

    /// Another handle to the same source.
    pub fn duplicate(&self) -> (src: Source)
        ensures
            src@ == self@,
    {
        proof {
            use_type_invariant(self);
        }
        Source { data: self.data.clone() }
    }

    /// Name of the source, used when reporting locations.
    pub fn name(&self) -> (name: &str)
        ensures
            name@ == self@.name,
    {
        self.data.name.as_str()
    }

    /// Full source text.
    pub fn text(&self) -> (text: &str)
        ensures
            text@ == self@.text,
            text.spec_bytes() == self@.bytes(),
    {
        self.data.text.as_str()
    }

    /// Text between two character boundaries.
    pub fn slice(&self, sta: usize, end: usize) -> (text: &str)
        requires
            sta <= end <= self@.bytes().len(),
            at_boundary(self@.bytes(), sta as int),
            at_boundary(self@.bytes(), end as int),
        ensures
            text.spec_bytes() == self@.bytes().subrange(sta as int, end as int),
            text@ == decode_utf8(self@.bytes().subrange(sta as int, end as int)),
    {
        let full = self.text();
        let ghost bytes = full.spec_bytes();
        proof {
            if sta < bytes.len() {
                is_char_boundary_iff_not_is_continuation_byte(bytes, sta as int);
            } else {
                is_char_boundary_start_end_of_seq(bytes);
            }
        }
        let (_, rest) = full.split_at(sta);
        proof {
            let rb = rest.spec_bytes();
            let l = (end - sta) as int;
            assert(rb == bytes.subrange(sta as int, bytes.len() as int));
            if l < rb.len() {
                assert(rb[l] == bytes[sta + l]);
                is_char_boundary_iff_not_is_continuation_byte(rb, l);
            } else {
                is_char_boundary_start_end_of_seq(rb);
            }
        }
        let (mid, _) = rest.split_at(end - sta);
        proof {
            assert(mid.spec_bytes() == bytes.subrange(sta as int, end as int));
        }
        mid
    }

    /// Source text as UTF-8 bytes.
    pub fn bytes(&self) -> (bytes: &[u8])
        ensures
            bytes@ == self@.bytes(),
            bytes@.len() <= MAX_SOURCE_LEN,
    {
        proof {
            use_type_invariant(self);
        }
        self.data.text.as_str().as_bytes()
    }

    /// Length of the text in bytes.
    pub fn len(&self) -> (len: usize)
        ensures
            len == self@.bytes().len(),
    {
        self.bytes().len()
    }

    /// Global offset of the source, always zero for a standalone source.
    pub fn offset(&self) -> (offset: usize)
        ensures
            offset == 0,
    {
        0
    }

    /// Tab width for the source.
    pub fn tab_width(&self) -> (width: usize)
        ensures
            width == TAB_WIDTH,
    {
        TAB_WIDTH
    }

    /// Span covering the whole source text, positioned at its start.
    pub fn span(&self) -> (span: Span)
        ensures
            span@ == (SpanView {
                source: self@,
                offset: 0,
                length: self@.bytes().len() as int,
                indent: 0,
                column: 0,
                line: 0,
            }),
    {
        let len = self.len();
        proof {
            use_type_invariant(self);
            lemma_valid_start_boundary(self@.bytes());
        }
        Span { source: self.duplicate(), offset: 0, length: len, indent: 0, column: 0, line: 0 }
    }
}

impl Default for Source {
    fn default() -> (src: Source)
        ensures
            src@.name.len() == 0,
            src@.text.len() == 0,
    {
        Source::empty()
    }
}

/// Byte range of a [`Source`] with the position of its start.
pub struct Span {
    source: Source,
    offset: usize,
    length: usize,
    indent: usize,
    column: usize,
    line: usize,
}

/// Mathematical view of a [`Span`].
pub struct SpanView {
    pub source: SourceView,
    pub offset: int,
    pub length: int,
    pub indent: int,
    pub column: int,
    pub line: int,
}

/// Column, indentation and line of a position.
pub struct Pos {
    pub column: int,
    pub indent: int,
    pub line: int,
}

impl SpanView {
    pub open spec fn bytes(self) -> Seq<u8> {
        self.source.bytes()
    }

    /// Bytes covered by the span.
    pub open spec fn data(self) -> Seq<u8> {
        self.bytes().subrange(self.offset, self.offset + self.length)
    }

    /// Byte offset of the end of the span.
    pub open spec fn end(self) -> int {
        self.offset + self.length
    }

    pub open spec fn pos(self) -> Pos {
        Pos { column: self.column, indent: self.indent, line: self.line }
    }

    /// Characters covered by the span.
    pub open spec fn chars(self) -> Seq<char> {
        decode_utf8(self.data())
    }

    /// The span advanced by `n` bytes.
    pub open spec fn skip_bytes(self, n: int) -> SpanView {
        let p = advance_pos(self.pos(), self.data().take(n));
        SpanView {
            offset: self.offset + n,
            length: self.length - n,
            column: p.column,
            indent: p.indent,
            line: p.line,
            ..self
        }
    }

    /// The span after reading one character.
    pub open spec fn read_step(self) -> SpanView {
        self.skip_bytes(spec_char_size(self.data()))
    }

    /// The span after reading `k` characters.
    pub open spec fn read_n(self, k: nat) -> SpanView
        decreases k,
    {
        if k == 0 {
            self
        } else {
            self.read_step().read_n((k - 1) as nat)
        }
    }

    /// A span lies in its source, starts and ends at character boundaries,
    /// and its position is consistent with having been reached by reading.
    pub open spec fn wf(self) -> bool {
        &&& 0 <= self.offset
        &&& 0 <= self.length
        &&& self.offset + self.length <= self.bytes().len()
        &&& self.bytes().len() <= MAX_SOURCE_LEN
        &&& 0 <= self.indent <= self.column <= 4 * self.offset
        &&& 0 <= self.line <= self.offset
        &&& at_boundary(self.bytes(), self.offset)
        &&& at_boundary(self.bytes(), self.offset + self.length)
    }
}

/// Bytes consumed by one reading step: a space or tab, a line break, or
/// one character.
pub open spec fn step_size(s: Seq<u8>) -> int {
    if spec_check_space(s) is Some {
        1
    } else if spec_check_line_break(s) is Some {
        spec_check_line_break(s).unwrap() as int
    } else {
        spec_char_size(s)
    }
}

/// Position after one reading step: a tab moves to the next multiple of
/// the tab width, a line break starts a new line, anything else moves one
/// column; leading whitespace extends the indentation.
pub open spec fn step_pos(p: Pos, s: Seq<u8>) -> Pos {
    if spec_check_space(s) is Some {
        let c = spec_check_space(s).unwrap().0;
        let column = if c == '\t' {
            p.column + TAB_WIDTH - p.column % (TAB_WIDTH as int)
        } else {
            p.column + 1
        };
        Pos { column, indent: if p.column == p.indent { column } else { p.indent }, line: p.line }
    } else if spec_check_line_break(s) is Some {
        Pos { column: 0, indent: 0, line: p.line + 1 }
    } else {
        Pos { column: p.column + 1, indent: p.indent, line: p.line }
    }
}

pub proof fn lemma_step_size(s: Seq<u8>)
    requires
        s.len() > 0,
    ensures
        0 < step_size(s) <= s.len(),
{
    lemma_char_size_bounds(s);
}

/// The bytes of a well-formed span are valid UTF-8.
pub proof fn lemma_data_valid(v: SpanView)
    requires
        v.wf(),
    ensures
        valid_utf8(v.data()),
{
    let bytes = v.bytes();
    let o = v.offset;
    if o < bytes.len() {
        is_char_boundary_iff_not_is_continuation_byte(bytes, o);
    } else {
        is_char_boundary_start_end_of_seq(bytes);
    }
    valid_utf8_split(bytes, o);
    let rest = bytes.subrange(o, bytes.len() as int);
    let l = v.length;
    if l < rest.len() {
        assert(rest[l] == bytes[o + l]);
        is_char_boundary_iff_not_is_continuation_byte(rest, l);
    } else {
        is_char_boundary_start_end_of_seq(rest);
    }
    valid_utf8_split(rest, l);
    assert(rest.subrange(0, l) == v.data());
}

proof fn lemma_cont_run_to(d: Seq<u8>, i: int, l: int)
    requires
        1 <= i <= l <= d.len(),
        forall|j: int| i <= j < l ==> is_continuation_byte(#[trigger] d[j]),
        l < d.len() ==> !is_continuation_byte(d[l]),
    ensures
        crate::chars::cont_run_end(d, i) == l,
    decreases l - i,
{
    if i < l {
        lemma_cont_run_to(d, i + 1, l);
    }
}

/// Reading a character of a well-formed span consumes exactly the first
/// encoded character, which is returned.
pub proof fn lemma_read_char(v: SpanView)
    requires
        v.wf(),
        v.length > 0,
    ensures
        spec_char_size(v.data()) == length_of_first_scalar(v.data()),
        decode_lead(v.data().take(spec_char_size(v.data()))) == v.chars()[0],
        v.read_step().chars() == v.chars().drop_first(),
        v.chars().len() > 0,
{
    let d = v.data();
    lemma_data_valid(v);
    assert(valid_first_scalar(d));
    let l = length_of_first_scalar(d);
    let p = pop_first_scalar(d);
    if l < d.len() {
        assert(valid_utf8(p));
        assert(valid_first_scalar(p));
        assert(p[0] == d[l]);
    }
    if d.len() > 1 {
        lemma_cont_run_to(d, 1, l);
    }
    let t = d.take(l);
    assert(t[0] == d[0]);
    assert(valid_first_scalar(t));
    assert(pop_first_scalar(t).len() == 0);
    reveal_with_fuel(valid_utf8, 2);
    assert(valid_utf8(t));
    assert(decode_utf8(t)[0] == decode_first_scalar(d) as char);
    assert(v.read_step().data() == p);
    assert(decode_utf8(d) == seq![decode_first_scalar(d) as char] + decode_utf8(p));
}

/// A span split at the start of a later span with the same end: the
/// characters of the first part followed by those of the rest.
pub proof fn lemma_split_chars(start: SpanView, cur: SpanView)
    requires
        start.wf(),
        cur.wf(),
        cur.source == start.source,
        cur.end() == start.end(),
        start.offset <= cur.offset,
    ensures
        (SpanView { length: cur.offset - start.offset, ..start }).chars() + cur.chars()
            == start.chars(),
        (SpanView { length: cur.offset - start.offset, ..start }).wf(),
{
    let d = start.data();
    lemma_data_valid(start);
    let k = cur.offset - start.offset;
    if k < d.len() {
        assert(d[k] == start.bytes()[cur.offset]);
        is_char_boundary_iff_not_is_continuation_byte(d, k);
    } else {
        is_char_boundary_start_end_of_seq(d);
    }
    decode_utf8_split(d, k);
    assert(d.subrange(0, k) == (SpanView { length: k, ..start }).data());
    assert(d.subrange(k, d.len() as int) == cur.data());
}

/// Advancing a well-formed span past a valid UTF-8 prefix of its bytes
/// stops at a character boundary.
pub proof fn lemma_valid_advance(v: SpanView, k: int)
    requires
        v.wf(),
        0 <= k <= v.length,
        valid_utf8(v.data().take(k)),
    ensures
        at_boundary(v.bytes(), v.offset + k),
{
    assert(v.data().take(k) == v.bytes().subrange(v.offset, v.offset + k));
    crate::chars::lemma_valid_chunk_boundary(v.bytes(), v.offset, k);
}

/// Advancing a well-formed span past ASCII bytes stops at a character
/// boundary.
pub proof fn lemma_ascii_advance(v: SpanView, k: int)
    requires
        v.wf(),
        0 <= k <= v.length,
        forall|i: int| 0 <= i < k ==> #[trigger] v.data()[i] < 0x80,
    ensures
        at_boundary(v.bytes(), v.offset + k),
{
    let t = v.data().take(k);
    assert(forall|i: int| 0 <= i < t.len() ==> #[trigger] t[i] == v.data()[i]);
    crate::chars::lemma_ascii_chunk_valid(t);
    lemma_valid_advance(v, k);
}

/// Position after reading all of `s` from position `p`.
pub open spec fn advance_pos(p: Pos, s: Seq<u8>) -> Pos
    decreases s.len(),
{
    if s.len() == 0 {
        p
    } else {
        proof {
            lemma_step_size(s);
        }
        advance_pos(step_pos(p, s), s.skip(step_size(s)))
    }
}

/// The character at the start of a chunk of bytes, or U+FFFD when the
/// chunk is not valid UTF-8.
pub open spec fn decode_lead(chunk: Seq<u8>) -> char {
    if chunk.len() > 0 && valid_utf8(chunk) {
        decode_utf8(chunk)[0]
    } else {
        '\u{FFFD}'
    }
}

/// The later end of two spans.
pub open spec fn max_end(a: SpanView, b: SpanView) -> int {
    if a.end() > b.end() {
        a.end()
    } else {
        b.end()
    }
}

/// The span merged from two spans of one source covers both.
pub proof fn lemma_merge_covers(a: SpanView, b: SpanView)
    requires
        a.offset != 0,
        b.offset != 0,
        a.source == b.source,
        0 <= a.length,
        0 <= b.length,
    ensures
        ({
            let m = if b.offset < a.offset {
                SpanView { length: max_end(a, b) - b.offset, ..b }
            } else {
                SpanView { length: max_end(a, b) - a.offset, ..a }
            };
            &&& m.offset <= a.offset && m.offset <= b.offset
            &&& m.end() >= a.end() && m.end() >= b.end()
        }),
{
}

/// `name:line:column` with one based line and column.
pub open spec fn location_text(v: SpanView) -> Seq<char> {
    v.source.name + seq![':'] + decimal((v.line + 1) as nat) + seq![':'] + decimal(
        (v.column + 1) as nat,
    )
}

impl View for Span {
    type V = SpanView;

    closed spec fn view(&self) -> SpanView {
        SpanView {
            source: self.source@,
            offset: self.offset as int,
            length: self.length as int,
            indent: self.indent as int,
            column: self.column as int,
            line: self.line as int,
        }
    }
}

impl Span {
    #[verifier::type_invariant]
    pub open spec fn inv(self) -> bool {
        self@.wf()
    }

    /// Another span with the same source and position.
    pub fn duplicate(&self) -> (span: Span)
        ensures
            span@ == self@,
    {
        proof {
            use_type_invariant(self);
        }
        Span {
            source: self.source.duplicate(),
            offset: self.offset,
            length: self.length,
            indent: self.indent,
            column: self.column,
            line: self.line,
        }
    }

    /// An empty span over an unnamed empty source.
    pub fn empty() -> (span: Span)
        ensures
            span@.source.name.len() == 0,
            span@.source.text.len() == 0,
            span@.offset == 0 && span@.length == 0,
            span@.pos() == (Pos { column: 0, indent: 0, line: 0 }),
    {
        let source = Source::empty();
        let span = source.span();
        assert(span@.source.bytes().len() == 0);
        span
    }

    /// Span over the entire range of both spans. An unset span (at offset
    /// zero) yields the other one, and spans of different sources give an
    /// empty span.
    pub fn merge(a: Span, b: Span) -> (span: Span)
        ensures
            span@ == (if a@.offset == 0 {
                b@
            } else if b@.offset == 0 {
                a@
            } else if a@.source != b@.source {
                span@
            } else if b@.offset < a@.offset {
                SpanView { length: max_end(a@, b@) - b@.offset, ..b@ }
            } else {
                SpanView { length: max_end(a@, b@) - a@.offset, ..a@ }
            }),
            a@.offset != 0 && b@.offset != 0 && a@.source != b@.source ==> span@.offset == 0
                && span@.length == 0 && span@.source.name.len() == 0 && span@.source.text.len()
                == 0,
    {
        proof {
            use_type_invariant(&a);
            use_type_invariant(&b);
        }
        if a.offset() == 0 {
            b
        } else if b.offset() == 0 {
            a
        } else if !same_source(&a.source, &b.source) {
            Span::empty()
        } else {
            let (a, b) = if b.offset < a.offset {
                (b, a)
            } else {
                (a, b)
            };
            let a_end = a.offset + a.length;
            let b_end = b.offset + b.length;
            let length = if a_end > b_end {
                a_end
            } else {
                b_end
            } - a.offset;
            Span {
                source: a.source,
                offset: a.offset,
                length,
                indent: a.indent,
                column: a.column,
                line: a.line,
            }
        }
    }

    /// Span from the start of this one to the end of `other`.
    pub fn to(self, other: Span) -> (span: Span)
        ensures
            span@ == (if self@.offset == 0 {
                other@
            } else if other@.offset == 0 {
                self@
            } else if self@.source != other@.source {
                span@
            } else if other@.offset < self@.offset {
                SpanView { length: max_end(self@, other@) - other@.offset, ..other@ }
            } else {
                SpanView { length: max_end(self@, other@) - self@.offset, ..self@ }
            }),
    {
        Self::merge(self, other)
    }

    /// Zero-length span at the start of this one.
    pub fn pos(&self) -> (span: Span)
        ensures
            span@ == (SpanView { length: 0, ..self@ }),
    {
        proof {
            use_type_invariant(self);
        }
        self.truncate(0)
    }

    /// Byte range of the span.
    pub fn source_range(&self) -> (range: (usize, usize))
        ensures
            range == (self@.offset as usize, self@.end() as usize),
    {
        proof {
            use_type_invariant(self);
        }
        let sta = self.offset();
        (sta, sta + self.length)
    }

    /// Global offset of the start of the span.
    pub fn offset(&self) -> (offset: usize)
        ensures
            offset == self@.offset,
    {
        self.source.offset() + self.offset
    }

    /// Tab width of the source.
    pub fn tab_width(&self) -> (width: usize)
        ensures
            width == TAB_WIDTH,
    {
        self.source.tab_width()
    }

    /// Width of the leading whitespace of the line, up to the span start.
    pub fn indent(&self) -> (indent: usize)
        ensures
            indent == self@.indent,
    {
        self.indent
    }

    /// Column of the span start.
    pub fn column(&self) -> (column: usize)
        ensures
            column == self@.column,
    {
        self.column
    }

    /// Source of the span.
    pub fn source(&self) -> (source: &Source)
        ensures
            source@ == self@.source,
    {
        &self.source
    }

    /// Length of the span in bytes.
    pub fn len(&self) -> (len: usize)
        ensures
            len == self@.length,
    {
        self.length
    }

    /// Text covered by the span.
    pub fn text(&self) -> (text: &str)
        ensures
            text.spec_bytes() == self@.data(),
            text@ == decode_utf8(self@.data()),
    {
        proof {
            use_type_invariant(self);
        }
        let full = self.source.text();
        let ghost bytes = full.spec_bytes();
        proof {
            let o = self.offset as int;
            if o < bytes.len() {
                is_char_boundary_iff_not_is_continuation_byte(bytes, o);
            } else {
                is_char_boundary_start_end_of_seq(bytes);
            }
        }
        let (_, rest) = full.split_at(self.offset);
        proof {
            let rb = rest.spec_bytes();
            let l = self.length as int;
            assert(rb == bytes.subrange(self.offset as int, bytes.len() as int));
            if l < rb.len() {
                assert(rb[l] == bytes[self.offset + l]);
                is_char_boundary_iff_not_is_continuation_byte(rb, l);
            } else {
                is_char_boundary_start_end_of_seq(rb);
            }
        }
        let (mid, _) = rest.split_at(self.length);
        proof {
            assert(mid.spec_bytes() == self@.data());
        }
        mid
    }

    /// Bytes covered by the span.
    pub fn data(&self) -> (data: &[u8])
        ensures
            data@ == self@.data(),
    {
        proof {
            use_type_invariant(self);
        }
        let bytes = self.source.bytes();
        &bytes[self.offset..self.offset + self.length]
    }

    /// Span with the same start, shortened to at most `length` bytes.
    pub fn truncate(&self, length: usize) -> (span: Span)
        requires
            length >= self@.length || at_boundary(self@.bytes(), self@.offset + length),
        ensures
            span@ == (SpanView {
                length: if length < self@.length {
                    length as int
                } else {
                    self@.length
                },
                ..self@
            }),
    {
        proof {
            use_type_invariant(self);
        }
        let length = if length < self.length {
            length
        } else {
            self.length
        };
        Span {
            source: self.source.duplicate(),
            offset: self.offset,
            length,
            indent: self.indent,
            column: self.column,
            line: self.line,
        }
    }

    /// `name:line:column` of the span start (one based), when the source
    /// has a name.
    pub fn location(&self) -> (loc: Option<String>)
        ensures
            loc is Some <==> self@.source.name.len() > 0,
            loc matches Some(s) ==> s@ == location_text(self@),
    {
        proof {
            use_type_invariant(self);
        }
        let name = self.source.name();
        if name.unicode_len() > 0 {
            let mut out: Vec<char> = Vec::new();
            push_str(&mut out, name);
            out.push(':');
            push_decimal(&mut out, self.line + 1);
            out.push(':');
            push_decimal(&mut out, self.column + 1);
            Some(chars_to_string(out.as_slice()))
        } else {
            None
        }
    }

    /// Zero based line and column of the span start.
    pub fn line_column(&self) -> (lc: (usize, usize))
        ensures
            lc == (self@.line as usize, self@.column as usize),
    {
        (self.line, self.column)
    }

    /// True when no input is left in the span.
    pub fn at_end(&self) -> (b: bool)
        ensures
            b == (self@.length == 0),
    {
        self.length == 0
    }

    /// True when the span starts within the leading indentation of a line.
    pub fn is_indent(&self) -> (b: bool)
        ensures
            b == (self@.column == self@.indent),
    {
        self.column == self.indent
    }

    /// The next character and its size in bytes, without advancing.
    pub fn next_char(&self) -> (res: Option<(char, usize)>)
        ensures
            self@.length == 0 ==> res is None,
            self@.length > 0 ==> res is Some && res.unwrap().0 == decode_lead(
                self@.data().take(spec_char_size(self@.data())),
            ) && res.unwrap().1 == spec_char_size(self@.data()),
    {
        proof {
            use_type_invariant(self);
        }
        let data = self.data();
        if data.len() > 0 {
            let size = char_size(data);
            let chunk = &data[0..size];
            assert(chunk@ == self@.data().take(size as int));
            let c = match str_from_utf8(chunk) {
                Some(s) => {
                    assert(s@ == decode_utf8(chunk@));
                    assert(s@.len() > 0) by {
                        if s@.len() == 0 {
                            assert(encode_utf8(s@).len() == 0);
                        }
                    }
                    s.get_char(0)
                },
                None => '\u{FFFD}',
            };
            Some((c, size))
        } else {
            None
        }
    }

    /// Advances the span start by `length` bytes, updating the position.
    pub fn advance(&mut self, length: usize)
        requires
            length <= old(self)@.length,
            at_boundary(old(self)@.bytes(), old(self)@.offset + length),
        ensures
            final(self)@.source == old(self)@.source,
            final(self)@.offset == old(self)@.offset + length,
            final(self)@.length == old(self)@.length - length,
            final(self)@.pos() == advance_pos(
                old(self)@.pos(),
                old(self)@.bytes().subrange(old(self)@.offset, old(self)@.offset + length),
            ),
    {
        proof {
            use_type_invariant(&*self);
        }
        let data = self.source.bytes();
        let end = self.offset + length;
        let mut pos = self.offset;
        let mut column = self.column;
        let mut indent = self.indent;
        let mut line = self.line;
        let ghost full = data@.subrange(self.offset as int, end as int);
        let ghost start = self@.pos();
        while pos < end
            invariant
                self@.offset <= pos <= end,
                end <= data@.len() <= MAX_SOURCE_LEN,
                data@ == self@.bytes(),
                0 <= indent <= column <= 4 * pos,
                line <= pos,
                advance_pos(start, full) == advance_pos(
                    Pos { column: column as int, indent: indent as int, line: line as int },
                    data@.subrange(pos as int, end as int),
                ),
                full == data@.subrange(self@.offset, end as int),
            decreases end - pos,
        {
            let skip = &data[pos..end];
            let ghost s = skip@;
            let ghost p = Pos { column: column as int, indent: indent as int, line: line as int };
            proof {
                lemma_step_size(s);
            }
            let size = if let Some((c, size)) = check_space(skip) {
                let is_indent = column == indent;
                if c == '\t' {
                    column = column + (TAB_WIDTH - (column % TAB_WIDTH));
                } else {
                    column = column + 1;
                }
                if is_indent {
                    indent = column;
                }
                size
            } else if let Some(size) = check_line_break(skip) {
                column = 0;
                indent = 0;
                line = line + 1;
                size
            } else {
                column = column + 1;
                char_size(skip)
            };
            proof {
                assert(size == step_size(s));
                assert(Pos { column: column as int, indent: indent as int, line: line as int }
                    == step_pos(p, s));
                assert(s.skip(size as int) == data@.subrange(pos + size, end as int));
            }
            pos = pos + size;
        }
        assert(data@.subrange(end as int, end as int).len() == 0);
        *self = Span {
            source: self.source.duplicate(),
            offset: end,
            length: self.length - length,
            indent,
            column,
            line,
        };
    }

    /// Reads the next character and advances past it.
    pub fn read(&mut self) -> (res: Option<char>)
        ensures
            old(self)@.length == 0 ==> res is None && final(self)@ == old(self)@,
            old(self)@.length > 0 ==> res == Some(old(self)@.chars()[0]) && final(self)@ == old(self)@.read_step(),
            old(self)@.length > 0 ==> final(self)@.chars() == old(self)@.chars().drop_first(),
            (res is Some) == (old(self)@.chars().len() > 0),
            final(self)@.source == old(self)@.source,
            final(self)@.end() == old(self)@.end(),
            final(self)@.offset >= old(self)@.offset,
            res is Some ==> final(self)@.offset > old(self)@.offset,
    {
        proof {
            use_type_invariant(&*self);
            if self@.length > 0 {
                lemma_read_char(self@);
                lemma_char_size_bounds(self@.data());
            } else {
                assert(self@.data().len() == 0);
            }
        }
        if let Some((c, size)) = self.next_char() {
            proof {
                self.lemma_char_step(size as int);
            }
            self.advance(size);
            Some(c)
        } else {
            None
        }
    }

    /// The end of the leading character of the span is a boundary.
    pub proof fn lemma_char_step(&self, size: int)
        requires
            self@.wf(),
            self@.length > 0,
            size == spec_char_size(self@.data()),
        ensures
            0 < size <= self@.length,
            at_boundary(self@.bytes(), self@.offset + size),
            self@.bytes().subrange(self@.offset, self@.offset + size) == self@.data().take(size),
    {
        let d = self@.data();
        lemma_char_size_bounds(d);
        if d.len() > 1 {
            lemma_cont_run_end_bounds(d, 1);
            if size < d.len() {
                assert(d[size] == self@.bytes()[self@.offset + size]);
            }
        }
    }

    /// Reads the next character only when it is `expected`.
    pub fn read_if(&mut self, expected: char) -> (ok: bool)
        ensures
            ok == (old(self)@.length > 0 && old(self)@.chars()[0] == expected),
            ok == (old(self)@.chars().len() > 0 && old(self)@.chars()[0] == expected),
            ok ==> final(self)@ == old(self)@.read_step(),
            ok ==> final(self)@.chars() == old(self)@.chars().drop_first(),
            ok ==> final(self)@.offset > old(self)@.offset,
            !ok ==> final(self)@ == old(self)@,
            final(self)@.source == old(self)@.source,
            final(self)@.end() == old(self)@.end(),
    {
        proof {
            use_type_invariant(&*self);
            if self@.length > 0 {
                lemma_read_char(self@);
                lemma_char_size_bounds(self@.data());
            } else {
                assert(self@.data().len() == 0);
            }
        }
        if let Some((next, size)) = self.next_char() {
            if next == expected {
                proof {
                    self.lemma_char_step(size as int);
                }
                self.advance(size);
                true
            } else {
                false
            }
        } else {
            false
        }
    }

    /// Advances by `length` bytes and returns the span of the bytes passed.
    pub fn advance_span(&mut self, length: usize) -> (span: Span)
        requires
            length <= old(self)@.length,
            at_boundary(old(self)@.bytes(), old(self)@.offset + length),
        ensures
            final(self)@.source == old(self)@.source,
            final(self)@.offset == old(self)@.offset + length,
            final(self)@.length == old(self)@.length - length,
            final(self)@.pos() == advance_pos(
                old(self)@.pos(),
                old(self)@.bytes().subrange(old(self)@.offset, old(self)@.offset + length),
            ),
            span@ == (SpanView { length: length as int, ..old(self)@ }),
    {
        let start = self.duplicate();
        self.advance(length);
        self.span_from(&start)
    }

    /// Span from the start of `other` to the start of this span.
    pub fn span_from(&self, other: &Span) -> (span: Span)
        requires
            self@.source == other@.source,
            self@.offset >= other@.offset,
        ensures
            span@ == (SpanView { length: self@.offset - other@.offset, ..other@ }),
    {
        proof {
            use_type_invariant(self);
            use_type_invariant(other);
        }
        Span {
            source: other.source.duplicate(),
            offset: other.offset,
            length: self.offset - other.offset,
            indent: other.indent,
            column: other.column,
            line: other.line,
        }
    }
}

impl Default for Span {
    fn default() -> (span: Span)
        ensures
            span@.source.name.len() == 0,
            span@.source.text.len() == 0,
            span@.offset == 0 && span@.length == 0,
            span@.pos() == (Pos { column: 0, indent: 0, line: 0 }),
    {
        Span::empty()
    }
}

/// Compares two sources by name and text.
fn same_source(a: &Source, b: &Source) -> (same: bool)
    ensures
        same == (a@ == b@),
{
    let same = a.data.name == b.data.name && a.data.text == b.data.text;
    proof {
        if same {
            assert(a@ == b@);
        }
    }
    same
}

} // verus!
