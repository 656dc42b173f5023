//! The scanner: splits a source span into tokens using the registered
//! matchers, a symbol table and the set of identifier characters.

use vstd::prelude::*;
use vstd::string::StringSliceAdditionalSpecFns;
use vstd::utf8::*;

use crate::chars::{char_size, check_line_break, check_space, spec_check_line_break, spec_check_space};
use crate::errors::{ErrorView, Errors};
use crate::matchers::{kind_error, kind_match, MatcherKind};
use crate::span::{lemma_ascii_advance, lemma_valid_advance, Span, SpanView};
use crate::symbols::SymbolTable;
use crate::token::{Token, TokenView};

verus! {

broadcast use vstd::utf8::encode_utf8_valid_utf8, vstd::utf8::encode_utf8_decode_utf8;

/// What the symbol table of a scanner maps a string to.
#[derive(Clone, Debug, PartialEq, Eq)]
pub enum ScanAction {
    /// Explicitly invalid.
    Invalid,
    /// Starts an identifier.
    Word,
    /// Continues an identifier but cannot start one.
    WordNext,
    /// A registered symbol, and whether it can also be part of a word.
    Symbol(String, bool),
}

/// Mathematical view of a [`ScanAction`].
pub enum ScanActionView {
    Invalid,
    Word,
    WordNext,
    Symbol(Seq<char>, bool),
}

impl View for ScanAction {
    type V = ScanActionView;

    open spec fn view(&self) -> ScanActionView {
        match self {
            ScanAction::Invalid => ScanActionView::Invalid,
            ScanAction::Word => ScanActionView::Word,
            ScanAction::WordNext => ScanActionView::WordNext,
            ScanAction::Symbol(s, w) => ScanActionView::Symbol(s@, *w),
        }
    }
}

impl ScanAction {
    /// A copy of the action.
    pub fn duplicate(&self) -> (a: ScanAction)
        ensures
            a@ == self@,
    {
        match self {
            ScanAction::Invalid => ScanAction::Invalid,
            ScanAction::Word => ScanAction::Word,
            ScanAction::WordNext => ScanAction::WordNext,
            ScanAction::Symbol(s, w) => ScanAction::Symbol(s.clone(), *w),
        }
    }
}

/// UTF-8 encoding of a single character.
pub open spec fn char_key(c: char) -> Seq<u8> {
    encode_utf8(seq![c])
}

/// `w` encodes one of the first `k` characters of `cs`.
pub open spec fn is_char_key(w: Seq<u8>, cs: Seq<char>, k: int) -> bool {
    exists|i: int| 0 <= i < k && w == #[trigger] char_key(cs[i])
}

/// An action that continues a word: a word character, a character that
/// only continues words, or a symbol that can be part of a word.
pub open spec fn continues_word(a: ScanActionView) -> bool {
    match a {
        ScanActionView::Word => true,
        ScanActionView::WordNext => true,
        ScanActionView::Symbol(_, w) => w,
        ScanActionView::Invalid => false,
    }
}

/// The longest registered prefix of `d` continues a word.
pub open spec fn continues_at(m: Matcher, d: Seq<u8>) -> bool {
    exists|k: int|
        0 < k <= d.len() && (#[trigger] m.lookup(d.take(k)) matches Some(a) && continues_word(a))
            && forall|j: int| k < j <= d.len() ==> m.lookup(d.take(j)) is None
}

/// Length of the longest registered prefix of `d`, where `d` has one.
pub open spec fn key_len(m: Matcher, d: Seq<u8>) -> int {
    choose|k: int|
        0 < k <= d.len() && #[trigger] m.lookup(d.take(k)) is Some && forall|j: int|
            k < j <= d.len() ==> m.lookup(d.take(j)) is None
}

/// The first `n` bytes of `d` are a run of word continuations: each step
/// reads the longest registered prefix of what is left, and that prefix
/// continues a word.
pub open spec fn word_run(m: Matcher, d: Seq<u8>, n: int) -> bool
    decreases n,
{
    if n <= 0 {
        n == 0
    } else if continues_at(m, d) && 0 < key_len(m, d) <= n {
        word_run(m, d.skip(key_len(m, d)), n - key_len(m, d))
    } else {
        false
    }
}

/// The longest registered prefix is unique.
pub proof fn lemma_key_len(m: Matcher, d: Seq<u8>, k: int)
    requires
        0 < k <= d.len(),
        m.lookup(d.take(k)) is Some,
        forall|j: int| k < j <= d.len() ==> #[trigger] m.lookup(d.take(j)) is None,
    ensures
        key_len(m, d) == k,
{
    let c = key_len(m, d);
    assert(0 < c <= d.len() && m.lookup(d.take(c)) is Some && forall|j: int|
        c < j <= d.len() ==> m.lookup(d.take(j)) is None);
    if c < k {
        assert(m.lookup(d.take(k)) is None);
    } else if c > k {
        assert(m.lookup(d.take(c)) is None);
    }
}

/// A run of word continuations followed by one more continuation is a run.
proof fn lemma_word_run_push(m: Matcher, d: Seq<u8>, n: int, c: int)
    requires
        word_run(m, d, n),
        0 <= n,
        n + c <= d.len(),
        continues_at(m, d.skip(n)),
        key_len(m, d.skip(n)) == c,
        0 < c,
    ensures
        word_run(m, d, n + c),
    decreases n,
{
    if n == 0 {
        assert(d.skip(0) =~= d);
        assert(d.skip(c).len() >= 0);
        assert(word_run(m, d.skip(c), 0));
    } else {
        let k = key_len(m, d);
        let d2 = d.skip(k);
        assert(d2.skip(n - k) =~= d.skip(n));
        lemma_word_run_push(m, d2, n - k, c);
    }
}

/// The longest registered prefix of `d` starts a word or is a symbol.
pub open spec fn starts_word_or_symbol(m: Matcher, d: Seq<u8>) -> bool {
    exists|k: int|
        0 < k <= d.len() && (#[trigger] m.lookup(d.take(k)) matches Some(a) && (a is Word
            || a is Symbol)) && forall|j: int| k < j <= d.len() ==> m.lookup(d.take(j)) is None
}

/// A token starts at the start of `v`: a matcher applies there, or its
/// longest registered prefix starts a word or is a symbol.
pub open spec fn token_start(m: Matcher, v: SpanView) -> bool {
    !no_matcher(m.matchers(), v.chars()) || starts_word_or_symbol(m, v.data())
}

proof fn lemma_longest(m: Matcher, d: Seq<u8>, size: int, act: Option<ScanActionView>)
    requires
        0 <= size <= d.len(),
        act is Some ==> size > 0 && m.lookup(d.take(size)) == act,
        act is None ==> forall|k: int| 0 <= k <= d.len() ==> #[trigger] m.lookup(d.take(k)) is None,
        forall|j: int| size < j <= d.len() ==> #[trigger] m.lookup(d.take(j)) is None,
    ensures
        starts_word_or_symbol(m, d) == (act matches Some(a) && (a is Word || a is Symbol)),
        continues_at(m, d) == (act matches Some(a) && continues_word(a)),
{
    if starts_word_or_symbol(m, d) {
        let k = choose|k: int|
            0 < k <= d.len() && (#[trigger] m.lookup(d.take(k)) matches Some(a) && (a is Word
                || a is Symbol)) && forall|j: int| k < j <= d.len() ==> m.lookup(d.take(j)) is None;
        if act is Some {
            if k < size {
                assert(m.lookup(d.take(size)) is Some);
            }
        }
    }
    if continues_at(m, d) {
        let k = choose|k: int|
            0 < k <= d.len() && (#[trigger] m.lookup(d.take(k)) matches Some(a) && continues_word(a))
                && forall|j: int| k < j <= d.len() ==> m.lookup(d.take(j)) is None;
        if act is Some {
            if k < size {
                assert(m.lookup(d.take(size)) is Some);
            }
        }
    }
}

proof fn lemma_blank_at_end(v: SpanView)
    requires
        v.wf(),
        blank_between(v, v.offset, v.end()),
        crate::chars::spec_check_space(v.data()) is None,
        crate::chars::spec_check_line_break(v.data()) is None,
    ensures
        v.length == 0,
{
    if v.length > 0 {
        assert(v.data()[0] == v.bytes()[v.offset]);
        assert(is_blank_byte(v.bytes()[v.offset]));
    }
}

proof fn lemma_break_pos(p: crate::span::Pos, s: Seq<u8>)
    requires
        is_line_break(s),
    ensures
        crate::span::advance_pos(p, s).column == 0,
        crate::span::advance_pos(p, s).indent == 0,
{
    let n = crate::span::step_size(s);
    assert(n == s.len());
    assert(s.skip(n).len() == 0);
    assert(crate::span::advance_pos(p, s) == crate::span::advance_pos(crate::span::step_pos(p, s), s.skip(n)));
}

/// A line feed, a carriage return, or both in that order.
pub open spec fn is_line_break(d: Seq<u8>) -> bool {
    d == seq![0x0Au8] || d == seq![0x0Du8] || d == seq![0x0Du8, 0x0Au8]
}

/// A space, a tab, a carriage return or a line feed.
pub open spec fn is_blank_byte(b: u8) -> bool {
    b == 0x20u8 || b == 0x09u8 || b == 0x0Du8 || b == 0x0Au8
}

/// The bytes of `v`'s source from `a` up to `b` are spaces and tabs.
pub open spec fn spaces_between(v: SpanView, a: int, b: int) -> bool {
    forall|j: int| a <= j < b ==> (#[trigger] v.bytes()[j] == 0x20u8 || v.bytes()[j] == 0x09u8)
}

/// The bytes of `v`'s source from `a` up to `b` are blank.
pub open spec fn blank_between(v: SpanView, a: int, b: int) -> bool {
    forall|j: int| a <= j < b ==> is_blank_byte(#[trigger] v.bytes()[j])
}

/// Two adjacent blank ranges of one source form a blank range.
pub proof fn lemma_blank_join(v: SpanView, w: SpanView, a: int, b: int, c: int)
    requires
        blank_between(v, a, b),
        blank_between(w, b, c),
        v.source == w.source,
    ensures
        blank_between(v, a, c),
{
    assert forall|j: int| a <= j < c implies is_blank_byte(#[trigger] v.bytes()[j]) by {
        if j >= b {
            assert(w.bytes()[j] == v.bytes()[j]);
        }
    }
}

/// The span from the start of `span` up to `end`.
pub open spec fn rest_from(span: SpanView, end: int) -> SpanView {
    SpanView { length: end - span.offset, ..span }
}

/// A configurable scanner.
pub struct Matcher {
    matchers: Vec<MatcherKind>,
    table: SymbolTable<ScanAction>,
    word_chars: Vec<char>,
}

impl Matcher {
    /// Every key of the table is the non-empty encoding of a string, and a
    /// symbol is stored under its own encoding.
    pub closed spec fn wf(self) -> bool {
        &&& forall|w: Seq<u8>| #[trigger]
            self.table.lookup(w) is Some ==> {
                &&& w.len() > 0
                &&& valid_utf8(w)
                &&& self.table.lookup(w).unwrap() matches ScanAction::Symbol(s, _) ==> w
                    == encode_utf8(s@)
            }
        &&& self.word_chars@.no_duplicates()
    }

    /// Action registered for the bytes `w`.
    pub closed spec fn lookup(self, w: Seq<u8>) -> Option<ScanActionView> {
        match self.table.lookup(w) {
            Some(a) => Some(a@),
            None => None,
        }
    }

    /// Characters that start identifiers.
    pub closed spec fn word_chars(self) -> Set<char> {
        self.word_chars@.to_set()
    }

    /// Registered matchers, in the order they are tried.
    pub closed spec fn matchers(self) -> Seq<MatcherKind> {
        self.matchers@
    }

    /// A scanner with no matchers, symbols or word characters.
    pub fn new() -> (m: Matcher)
        ensures
            m.wf(),
            forall|w: Seq<u8>| #[trigger] m.lookup(w) is None,
            m.word_chars() == Set::<char>::empty(),
            m.matchers().len() == 0,
    {
        let m = Matcher { matchers: Vec::new(), table: SymbolTable::new(), word_chars: Vec::new() };
        assert(m.word_chars@.to_set() =~= Set::<char>::empty());
        m
    }

    /// Adds a matcher, tried after those already registered.
    pub fn add_matcher(&mut self, matcher: MatcherKind)
        requires
            old(self).wf(),
        ensures
            final(self).wf(),
            final(self).matchers() == old(self).matchers().push(matcher),
            forall|w: Seq<u8>| #[trigger] final(self).lookup(w) == old(self).lookup(w),
            final(self).word_chars() == old(self).word_chars(),
    {
        self.matchers.push(matcher);
    }

    /// Registers a symbol. A symbol starting with a word character can
    /// also continue a word.
    pub fn add_symbol(&mut self, symbol: &str)
        requires
            old(self).wf(),
            symbol@.len() > 0,
        ensures
            final(self).wf(),
            final(self).lookup(symbol.spec_bytes()) == Some(
                ScanActionView::Symbol(symbol@, old(self).word_chars().contains(symbol@[0])),
            ),
            forall|w: Seq<u8>|
                w != symbol.spec_bytes() ==> #[trigger] final(self).lookup(w) == old(self).lookup(
                    w,
                ),
            final(self).word_chars() == old(self).word_chars(),
            final(self).matchers() == old(self).matchers(),
    {
        proof {
            if symbol.spec_bytes().len() == 0 {
                assert(decode_utf8(symbol.spec_bytes()).len() == 0);
            }
        }
        let first = symbol.get_char(0);
        let is_word = contains_char(&self.word_chars, first);
        self.table.add(symbol, ScanAction::Symbol(symbol.to_owned(), is_word));
    }

    /// Registers characters that start (and continue) identifiers.
    pub fn add_word_chars(&mut self, chars: &str)
        requires
            old(self).wf(),
        ensures
            final(self).wf(),
            final(self).word_chars() == old(self).word_chars() + chars@.to_set(),
            forall|w: Seq<u8>| #[trigger]
                final(self).lookup(w) == if is_char_key(w, chars@, chars@.len() as int) {
                    Some(ScanActionView::Word)
                } else {
                    old(self).lookup(w)
                },
            final(self).matchers() == old(self).matchers(),
    {
        let n = chars.unicode_len();
        let mut i: usize = 0;
        let ghost start = self.word_chars@;
        while i < n
            invariant
                0 <= i <= n,
                n == chars@.len(),
                self.word_chars@.to_set() == start.to_set() + chars@.take(i as int).to_set(),
                self.word_chars@.no_duplicates(),
                self.table == old(self).table,
                self.matchers == old(self).matchers,
                old(self).wf(),
                start == old(self).word_chars@,
            decreases n - i,
        {
            let c = chars.get_char(i);
            let ghost before = self.word_chars@;
            if !contains_char(&self.word_chars, c) {
                self.word_chars.push(c);
                proof {
                    assert(self.word_chars@.to_set() =~= before.to_set().insert(c)) by {
                        assert forall|x: char| self.word_chars@.to_set().contains(x)
                            == before.to_set().insert(c).contains(x) by {
                            if x != c && self.word_chars@.contains(x) {
                                let k = choose|k: int| 0 <= k < self.word_chars@.len() && self.word_chars@[k] == x;
                                assert(before[k] == x);
                            }
                            if before.contains(x) {
                                let k = choose|k: int| 0 <= k < before.len() && before[k] == x;
                                assert(self.word_chars@[k] == x);
                            }
                            if x == c {
                                assert(self.word_chars@[before.len() as int] == c);
                            }
                        }
                    }
                }
            } else {
                proof {
                    assert(before.to_set().contains(c));
                    assert(before.to_set().insert(c) =~= before.to_set());
                }
            }
            proof {
                assert(chars@.take(i + 1) == chars@.take(i as int).push(c));
                chars@.take(i as int).lemma_push_to_set_commute(c);
                assert(self.word_chars@.to_set() =~= start.to_set() + chars@.take(i + 1).to_set());
            }
            i = i + 1;
        }
        proof {
            assert(chars@.take(n as int) == chars@);
        }
        self.add_action_chars(chars, ScanAction::Word);
    }

    /// Registers characters that continue identifiers without starting one.
    pub fn add_word_next_chars(&mut self, chars: &str)
        requires
            old(self).wf(),
        ensures
            final(self).wf(),
            final(self).word_chars() == old(self).word_chars(),
            forall|w: Seq<u8>| #[trigger]
                final(self).lookup(w) == if is_char_key(w, chars@, chars@.len() as int) {
                    Some(ScanActionView::WordNext)
                } else {
                    old(self).lookup(w)
                },
            final(self).matchers() == old(self).matchers(),
    {
        self.add_action_chars(chars, ScanAction::WordNext);
    }

    /// Maps each character of `chars` to `kind` in the symbol table.
    fn add_action_chars(&mut self, chars: &str, kind: ScanAction)
        requires
            old(self).wf(),
            !(kind is Symbol),
        ensures
            final(self).wf(),
            final(self).word_chars() == old(self).word_chars(),
            forall|w: Seq<u8>| #[trigger]
                final(self).lookup(w) == if is_char_key(w, chars@, chars@.len() as int) {
                    Some(kind@)
                } else {
                    old(self).lookup(w)
                },
            final(self).matchers() == old(self).matchers(),
    {
        let n = chars.unicode_len();
        let ghost before = self.table;
        let mut i: usize = 0;
        while i < n
            invariant
                0 <= i <= n,
                n == chars@.len(),
                !(kind is Symbol),
                self.word_chars == old(self).word_chars,
                self.matchers == old(self).matchers,
                before == old(self).table,
                forall|w: Seq<u8>| #[trigger]
                    self.table.lookup(w) == if is_char_key(w, chars@, i as int) {
                        Some(kind)
                    } else {
                        before.lookup(w)
                    },
                forall|w: Seq<u8>| #[trigger]
                    before.lookup(w) is Some ==> {
                        &&& w.len() > 0
                        &&& valid_utf8(w)
                        &&& before.lookup(w).unwrap() matches ScanAction::Symbol(s, _) ==> w
                            == encode_utf8(s@)
                    },
            decreases n - i,
        {
            let one = chars.substring_char(i, i + 1);
            let ghost key = one.spec_bytes();
            proof {
                assert(one@ == seq![chars@[i as int]]);
                assert(key == char_key(chars@[i as int]));
            }
            self.table.add(one, kind.duplicate());
            proof {
                assert forall|w: Seq<u8>| #[trigger]
                    self.table.lookup(w) == if is_char_key(w, chars@, i + 1) {
                        Some(kind)
                    } else {
                        before.lookup(w)
                    } by {
                    if w == key {
                        assert(is_char_key(w, chars@, i + 1));
                    } else {
                        if is_char_key(w, chars@, i + 1) {
                            let j = choose|j: int| 0 <= j < i + 1 && w == #[trigger] char_key(
                                chars@[j],
                            );
                            assert(j != i);
                            assert(is_char_key(w, chars@, i as int));
                        } else {
                            if is_char_key(w, chars@, i as int) {
                                let j = choose|j: int| 0 <= j < i && w == #[trigger] char_key(
                                    chars@[j],
                                );
                                assert(is_char_key(w, chars@, i + 1));
                            }
                        }
                    }
                }
            }
            i = i + 1;
        }
        proof {
            assert forall|w: Seq<u8>| #[trigger] self.table.lookup(w) is Some implies {
                &&& w.len() > 0
                &&& valid_utf8(w)
                &&& self.table.lookup(w).unwrap() matches ScanAction::Symbol(s, _) ==> w
                    == encode_utf8(s@)
            } by {
                if is_char_key(w, chars@, n as int) {
                    let j = choose|j: int| 0 <= j < n && w == #[trigger] char_key(chars@[j]);
                    let s = seq![chars@[j]];
                    assert(decode_utf8(encode_utf8(s)) == s);
                    if w.len() == 0 {
                        assert(decode_utf8(w).len() == 0);
                    }
                }
            }
        }
    }
}

/// No registered matcher applies to `c`.
pub open spec fn no_matcher(matchers: Seq<MatcherKind>, c: Seq<char>) -> bool {
    forall|k: int| 0 <= k < matchers.len() ==> #[trigger] kind_match(matchers[k], c) is None
}

/// The first registered matcher that applies to `c` gives `tok`, taking
/// `n` characters.
pub open spec fn first_match(matchers: Seq<MatcherKind>, c: Seq<char>, tok: TokenView, n: int) -> bool {
    exists|k: int|
        0 <= k < matchers.len() && #[trigger] kind_match(matchers[k], c) == Some((tok, n))
            && no_matcher(matchers.take(k), c)
}

/// The first registered matcher that applies to `c` reports `msg`.
pub open spec fn matcher_error(matchers: Seq<MatcherKind>, c: Seq<char>, msg: Seq<char>) -> bool {
    exists|k: int|
        0 <= k < matchers.len() && kind_match(matchers[k], c) is Some && no_matcher(matchers.take(k), c)
            && #[trigger] kind_error(matchers[k], c) == Some(msg)
}

/// What a scanned token says of its span. `end` is the end of the input
/// and `cursor` the scanner position after the token.
pub open spec fn scanned_token(
    m: Matcher,
    tok: TokenView,
    span: SpanView,
    end: int,
    cursor: SpanView,
) -> bool {
    let rest = rest_from(span, end).chars();
    match tok {
        TokenView::Break(n) => is_line_break(span.data()) && n == if cursor.length == 0 {
            0
        } else {
            cursor.indent
        },
        TokenView::Word(s) => s == span.chars() && no_matcher(m.matchers(), rest),
        TokenView::Symbol(s) => {
            &&& s == span.chars()
            &&& span.end() == cursor.offset
            &&& m.lookup(span.data()) matches Some(ScanActionView::Symbol(t, _))
            &&& t == s
            &&& no_matcher(m.matchers(), rest)
        },
        _ => span.end() == cursor.offset && first_match(m.matchers(), rest, tok, span.chars().len() as int),
    }
}

/// What one call of `Matcher::scan` gives: from the cursor `c0` with the
/// errors `e0`, the scanner ends at the cursor `c1` with the errors `e1`
/// and returns `res`.
pub open spec fn scan_post(
    m: Matcher,
    c0: SpanView,
    e0: Seq<ErrorView>,
    c1: SpanView,
    e1: Seq<ErrorView>,
    res: Option<(TokenView, SpanView)>,
) -> bool {
    &&& (c1.source == c0.source)
    &&& (c1.end() == c0.end())
    &&& (c1.offset >= c0.offset)
    &&& (e1.len() >= e0.len())
    &&& (e1.take(e0.len() as int) =~= e0)
    &&& (res is None ==> c1.length == 0 || e1.len() > 0)
    &&& (res is None && e1.len() > e0.len() ==> e1.len()
        == e0.len() + 1 && e1.last().message == "invalid symbol"@)
    &&& (res is None && e1.len() > e0.len() ==> {
        let es = e1.last().span;
        &&& es.source == c0.source
        &&& c0.offset <= es.offset
        &&& blank_between(c0, c0.offset, es.offset)
        &&& es.offset < c0.end()
        &&& !is_blank_byte(c0.bytes()[es.offset])
        &&& !token_start(m, rest_from(es, c0.end()))
    })
    &&& (blank_between(c0, c0.offset, c0.end()) ==> {
        &&& e1 == e0
        &&& res is None ==> c1.length == 0
        &&& res matches Some((t, _)) ==> t is Break
        &&& c0.column == c0.indent ==> res is None
    })
    &&& (res is None && e1.len() == e0.len() ==> blank_between(
        c0,
        c0.offset,
        c1.offset,
    ))
    &&& (res is Some ==> e1.len() <= e0.len() + 1)
    &&& (res matches Some((_, span)) ==> (e1.len() > e0.len()
        ==> e1.last().span == span && matcher_error(
        m.matchers(),
        rest_from(span, c0.end()).chars(),
        e1.last().message,
    )))
    &&& (c0.column != c0.indent ==> (res matches Some((_, span)) ==> spaces_between(
        c0,
        c0.offset,
        span.offset,
    )))
    &&& (c0.column == c0.indent ==> !(res matches Some((t, _)) && t is Break))
    &&& (res matches Some((tok, _)) && tok is Break ==> c1.length == 0 || !is_blank_byte(
        c1.bytes()[c1.offset],
    ))
    &&& (res matches Some((tok, span)) ==> (tok is Word && span.end() != c1.offset ==> word_run(
        m,
        rest_from(span, c0.end()).data().skip(span.length),
        c1.offset - span.end(),
    )))
    &&& (res matches Some((tok, span)) ==> (tok is Word && span.end() == c1.offset ==> {
        let d = rest_from(span, c0.end()).data();
        &&& 0 < key_len(m, d) <= span.length
        &&& word_run(m, d.skip(key_len(m, d)), span.length - key_len(m, d))
    }))
    &&& (res is Some && e1.len() > e0.len() ==> e1.last().message
        == "unclosed string literal"@ || e1.last().message == "invalid float literal"@)
    &&& (res matches Some((tok, span)) ==> {
        &&& blank_between(c0, c0.offset, span.offset)
        &&& tok is Break ==> blank_between(c0, span.end(), c1.offset)
        &&& tok is Word ==> span.end() == c1.offset || (m.lookup(span.data())
            matches Some(ScanActionView::Symbol(_, w)) && w)
        &&& tok is Word ==> !continues_at(m, c1.data())
        &&& tok is Symbol ==> forall|j: int|
            span.length < j <= rest_from(span, c0.end()).data().len()
                ==> #[trigger] m.lookup(rest_from(span, c0.end()).data().take(j))
                is None
            && starts_word_or_symbol(m, rest_from(span, c0.end()).data())
        &&& c1.offset > c0.offset
        &&& span.source == c0.source
        &&& c0.offset <= span.offset
        &&& span.length > 0
        &&& span.end() <= c1.offset
        &&& scanned_token(m, tok, span, c0.end(), c1)
    })
}

/// Views of a scanned token and its span.
pub open spec fn token_pair_view(res: Option<(Token, Span)>) -> Option<(TokenView, SpanView)> {
    match res {
        Some((t, s)) => Some((t@, s@)),
        None => None,
    }
}

impl Matcher {
    /// Scans the next token. Blank lines and spaces are skipped; a line
    /// break after a non-blank line gives a break token with the indentation
    /// of the next non-blank line (zero at the end of the input). Registered matchers are tried first, then
    /// the symbol table. Returns `None` at the end of the input, when
    /// errors were reported, and for an invalid symbol (which adds an
    /// error).
    pub fn scan(&mut self, cursor: &mut Span, errors: &mut Errors) -> (res: Option<(Token, Span)>)
        requires
            old(self).wf(),
        ensures
            *final(self) == *old(self),
            scan_post(
                *old(self),
                old(cursor)@,
                old(errors)@,
                final(cursor)@,
                final(errors)@,
                token_pair_view(res),
            ),
    {
        let ghost c0 = cursor@;
        let ghost e0 = errors@;
        proof {
            assert(e0.take(e0.len() as int) == e0);
        }
        loop
            invariant
                self.wf(),
                c0 == old(cursor)@,
                e0 == old(errors)@,
                *self == *old(self),
                cursor@.source == c0.source,
                cursor@.end() == c0.end(),
                cursor@.offset >= c0.offset,
                errors@ == e0,
                blank_between(c0, c0.offset, cursor@.offset),
                blank_between(c0, c0.offset, c0.end()) ==> blank_between(c0, cursor@.offset, c0.end()),
                cursor@ == c0 || cursor@.column == cursor@.indent,
                c0.column != c0.indent ==> cursor@ == c0,
            decreases cursor@.length,
        {
            let line_start = cursor.is_indent();
            let ghost pre = cursor@;
            self.skip_blank(cursor, false);
            proof {
                use_type_invariant(&*cursor);
                lemma_blank_join(c0, pre, c0.offset, pre.offset, cursor@.offset);
                if c0.column != c0.indent {
                    assert(pre == c0);
                    assert(spaces_between(c0, c0.offset, cursor@.offset));
                }
            }
            if let Some(size) = check_line_break(cursor.data()) {
                proof {
                    lemma_ascii_advance(cursor@, size as int);
                    assert(cursor@.data().take(size as int) =~= cursor@.bytes().subrange(
                        cursor@.offset,
                        cursor@.offset + size,
                    ));
                }
                let ghost before = cursor@;
                let span = cursor.advance_span(size);
                proof {
                    assert(span@.data() =~= before.data().take(size as int));
                    let d = before.data();
                    if d[0] == 0x0Au8 {
                        assert(span@.data() =~= seq![0x0Au8]);
                    } else if size == 2 {
                        assert(span@.data() =~= seq![0x0Du8, 0x0Au8]);
                    } else {
                        assert(span@.data() =~= seq![0x0Du8]);
                    }
                    assert forall|j: int| before.offset <= j < cursor@.offset implies is_blank_byte(
                        #[trigger] before.bytes()[j],
                    ) by {
                        assert(before.bytes()[j] == span@.data()[j - before.offset]);
                    }
                    lemma_blank_join(c0, before, c0.offset, before.offset, cursor@.offset);
                }
                proof {
                    crate::span::lemma_step_size(span@.data());
                    lemma_break_pos(before.pos(), span@.data());
                    assert(before.bytes().subrange(before.offset, before.offset + size) =~= span@.data());
                    if blank_between(c0, c0.offset, c0.end()) {
                        assert forall|j: int| cursor@.offset <= j < c0.end() implies is_blank_byte(
                            #[trigger] c0.bytes()[j],
                        ) by {
                            assert(before.offset <= j);
                        }
                    }
                }
                if !line_start {
                    let ghost mid = cursor@;
                    self.skip_blank(cursor, true);
                    proof {
                        lemma_blank_join(c0, mid, mid.offset, mid.offset, cursor@.offset);
                        use_type_invariant(&*cursor);
                        if cursor@.length > 0 {
                            assert(cursor@.data()[0] == cursor@.bytes()[cursor@.offset]);
                        }
                    }
                    let indent = if cursor.at_end() {
                        0
                    } else {
                        cursor.indent()
                    };
                    return Some((Token::Break(indent), span));
                } else {
                    continue ;
                }
            }
            proof {
                if blank_between(c0, c0.offset, c0.end()) {
                    assert forall|j: int| cursor@.offset <= j < cursor@.end() implies is_blank_byte(
                        #[trigger] cursor@.bytes()[j],
                    ) by {
                        assert(c0.bytes() == cursor@.bytes());
                    }
                    use_type_invariant(&*cursor);
                    lemma_blank_at_end(cursor@);
                }
            }
            if cursor.at_end() || !errors.empty() {
                return None;
            }
            proof {
                use_type_invariant(&*cursor);
                assert(cursor@.data()[0] == c0.bytes()[cursor@.offset]);
            }
            let start = cursor.duplicate();
            let ghost rest = start@.chars();
            let ghost e1 = errors@;
            let mut i: usize = 0;
            while i < self.matchers.len()
                invariant
                    self.wf(),
                    0 <= i <= self.matchers@.len(),
                    cursor@ == start@,
                    errors@ == e1,
                    e1.len() == 0,
                    e0.len() == 0,
                    c0 == old(cursor)@,
                    e0 == old(errors)@,
                    *self == *old(self),
                    start@.end() == c0.end(),
                    start@.source == c0.source,
                    start@.offset >= c0.offset,
                    blank_between(c0, c0.offset, start@.offset),
                    !blank_between(c0, c0.offset, c0.end()),
                    start@.offset < c0.end(),
                    !is_blank_byte(c0.bytes()[start@.offset]),
                    c0.column != c0.indent ==> spaces_between(c0, c0.offset, start@.offset),
                    rest == start@.chars(),
                    no_matcher(self.matchers@.take(i as int), rest),
                decreases self.matchers@.len() - i,
            {
                let ghost k = i as int;
                match self.matchers[i].try_match(cursor, errors) {
                    Some((token, span)) => {
                        proof {
                            use_type_invariant(&*cursor);
                            use_type_invariant(&span);
                            assert(rest_from(span@, c0.end()) == start@);
                            let n = kind_match(self.matchers@[k], rest).unwrap().1;
                            crate::matchers::lemma_kind_match_len(self.matchers@[k], rest);
                            assert(span@.chars().len() == n);
                            assert(first_match(self.matchers@, rest, token@, n));
                            assert(errors@.take(e0.len() as int) =~= e0);
                            if errors@.len() > e0.len() {
                                let m = kind_error(self.matchers@[k], rest);
                                assert(m is Some);
                            }
                        }
                        return Some((token, span));
                    },
                    None => {
                        if !errors.empty() {
                            proof {
                                assert(errors@.take(e0.len() as int) =~= e0);
                            }
                            return None;
                        }
                        *cursor = start.duplicate();
                    },
                }
                proof {
                    assert(self.matchers@.take(k + 1) =~= self.matchers@.take(k).push(
                        self.matchers@[k],
                    ));
                }
                i = i + 1;
            }
            proof {
                assert(self.matchers@.take(self.matchers@.len() as int) =~= self.matchers@);
                use_type_invariant(&*cursor);
            }
            let ghost before = cursor@;
            let ghost mut act: Option<ScanActionView> = None;
            let (size, action) = {
                let (size, action) = self.table.recognize(cursor.data());
                proof {
                    let d = cursor@.data();
                    act = match action {
                        Some(a) => Some(a@),
                        None => None,
                    };
                    assert forall|j: int| size < j <= d.len() implies #[trigger] self.lookup(d.take(j)) is None by {
                        assert(self.table.lookup(d.take(j)) is None);
                    }
                    if action is None {
                        assert forall|k: int| 0 <= k <= d.len() implies #[trigger] self.lookup(d.take(k)) is None by {
                            assert(self.table.lookup(d.take(k)) is None);
                        }
                    } else {
                        assert(self.table.lookup(d.take(size as int)) is Some);
                        assert(self.lookup(d.take(size as int)) == act);
                    }
                    lemma_longest(*self, d, size as int, act);
                }
                match action {
                    Some(a) => {
                        proof {
                            let key = cursor@.data().take(size as int);
                            assert(self.table.lookup(key) is Some);
                            lemma_valid_advance(cursor@, size as int);
                        }
                        (size, a.duplicate())
                    },
                    None => {
                        let size = char_size(cursor.data());
                        proof {
                            cursor.lemma_char_step(size as int);
                        }
                        (size, ScanAction::Invalid)
                    },
                }
            };
            let span = cursor.advance_span(size);
            proof {
                assert(span@.data() =~= before.data().take(size as int));
                assert(rest_from(span@, c0.end()) == start@);
            }
            match action {
                ScanAction::Word => {
                    let ghost mid = cursor@;
                    self.match_word_continuation(cursor);
                    let span = cursor.span_from(&start);
                    proof {
                        let d = start@.data();
                        assert(self.lookup(d.take(size as int)) is Some);
                        lemma_key_len(*self, d, size as int);
                        use_type_invariant(&start);
                        assert(mid.data() =~= d.skip(size as int));
                        assert(rest_from(span@, c0.end()).data() == d);
                    }
                    let word = span.text().to_owned();
                    return Some((Token::Word(word), span));
                },
                ScanAction::Symbol(symbol, is_word) => {
                    let span = cursor.span_from(&start);
                    proof {
                        let key = before.data().take(size as int);
                        assert(span@.data() == key);
                        assert(self.table.lookup(key) is Some);
                        assert(key == encode_utf8(symbol@));
                        assert(span@.chars() == symbol@);
                        use_type_invariant(&*cursor);
                        assert(cursor@.data() =~= rest_from(span@, c0.end()).data().skip(span@.length));
                    }
                    let token = if is_word && self.match_word_continuation(cursor) {
                        Token::Word(span.text().to_owned())
                    } else {
                        Token::Symbol(symbol)
                    };
                    return Some((token, span));
                },
                _ => {
                    errors.add("invalid symbol", span);
                    proof {
                        assert(errors@.take(e0.len() as int) =~= e0);
                    }
                    return None;
                },
            }
        }
    }

    /// Skips spaces and tabs, and also line breaks when `skip_breaks`.
    fn skip_blank(&self, cursor: &mut Span, skip_breaks: bool)
        ensures
            final(cursor)@.source == old(cursor)@.source,
            final(cursor)@.end() == old(cursor)@.end(),
            final(cursor)@.offset >= old(cursor)@.offset,
            spec_check_space(final(cursor)@.data()) is None,
            skip_breaks ==> spec_check_line_break(final(cursor)@.data()) is None,
            blank_between(old(cursor)@, old(cursor)@.offset, final(cursor)@.offset),
            !skip_breaks ==> spaces_between(old(cursor)@, old(cursor)@.offset, final(cursor)@.offset),
    {
        let ghost start = cursor@;
        loop
            invariant
                cursor@.source == start.source,
                cursor@.end() == start.end(),
                cursor@.offset >= start.offset,
                blank_between(start, start.offset, cursor@.offset),
                !skip_breaks ==> spaces_between(start, start.offset, cursor@.offset),
            ensures
                cursor@.source == start.source,
                cursor@.end() == start.end(),
                cursor@.offset >= start.offset,
                spec_check_space(cursor@.data()) is None,
                skip_breaks ==> spec_check_line_break(cursor@.data()) is None,
                blank_between(start, start.offset, cursor@.offset),
                !skip_breaks ==> spaces_between(start, start.offset, cursor@.offset),
            decreases cursor@.length,
        {
            proof {
                use_type_invariant(&*cursor);
            }
            let size = match check_space(cursor.data()) {
                Some((_, size)) => size,
                None => {
                    if skip_breaks {
                        match check_line_break(cursor.data()) {
                            Some(size) => size,
                            None => break ,
                        }
                    } else {
                        break ;
                    }
                },
            };
            proof {
                lemma_ascii_advance(cursor@, size as int);
                let d = cursor@.data();
                assert forall|j: int| cursor@.offset <= j < cursor@.offset + size implies is_blank_byte(
                    #[trigger] cursor@.bytes()[j],
                ) by {
                    assert(cursor@.bytes()[j] == d[j - cursor@.offset]);
                }
                if !skip_breaks {
                    assert(spec_check_space(d) is Some);
                    assert forall|j: int| start.offset <= j < cursor@.offset + size implies (#[trigger] start.bytes()[j]
                        == 0x20u8 || start.bytes()[j] == 0x09u8) by {
                        if j >= cursor@.offset {
                            assert(cursor@.bytes()[j] == d[j - cursor@.offset]);
                        }
                    }
                }
            }
            cursor.advance(size);
        }
    }

    /// Reads characters that continue a word, returning whether there were
    /// any.
    fn match_word_continuation(&self, cursor: &mut Span) -> (matched: bool)
        requires
            self.wf(),
        ensures
            final(cursor)@.source == old(cursor)@.source,
            final(cursor)@.end() == old(cursor)@.end(),
            final(cursor)@.offset >= old(cursor)@.offset,
            matched ==> final(cursor)@.offset > old(cursor)@.offset,
            !matched ==> final(cursor)@ == old(cursor)@,
            matched == continues_at(*self, old(cursor)@.data()),
            !continues_at(*self, final(cursor)@.data()),
            word_run(*self, old(cursor)@.data(), final(cursor)@.offset - old(cursor)@.offset),
    {
        proof {
            use_type_invariant(&*cursor);
        }
        let ghost start = cursor@;
        let mut matched = false;
        loop
            invariant
                self.wf(),
                0 <= start.offset <= start.end() <= start.bytes().len(),
                cursor@.source == start.source,
                cursor@.end() == start.end(),
                cursor@.offset >= start.offset,
                matched ==> cursor@.offset > start.offset,
                !matched ==> cursor@ == start,
                matched ==> continues_at(*self, start.data()),
                word_run(*self, start.data(), cursor@.offset - start.offset),
            ensures
                cursor@.source == start.source,
                cursor@.end() == start.end(),
                cursor@.offset >= start.offset,
                matched ==> cursor@.offset > start.offset,
                !matched ==> cursor@ == start,
                matched ==> continues_at(*self, start.data()),
                !continues_at(*self, cursor@.data()),
                word_run(*self, start.data(), cursor@.offset - start.offset),
            decreases cursor@.length,
        {
            proof {
                use_type_invariant(&*cursor);
            }
            let (size, action) = self.table.recognize(cursor.data());
            let cont = match action {
                Some(a) => match a {
                    ScanAction::Word => true,
                    ScanAction::WordNext => true,
                    ScanAction::Symbol(_, w) => *w,
                    ScanAction::Invalid => false,
                },
                None => false,
            };
            proof {
                let d = cursor@.data();
                if cont {
                    assert(self.lookup(d.take(size as int)) == Some(action.unwrap()@));
                    assert(forall|j: int| size < j <= d.len() ==> #[trigger] self.table.lookup(d.take(j)) is None);
                    assert(forall|j: int| size < j <= d.len() ==> self.lookup(d.take(j)) is None);
                    assert(continues_at(*self, d));
                } else {
                    if continues_at(*self, d) {
                        let k = choose|k: int|
                            0 < k <= d.len() && (#[trigger] self.lookup(d.take(k)) matches Some(a)
                                && continues_word(a)) && forall|j: int|
                                k < j <= d.len() ==> self.lookup(d.take(j)) is None;
                        assert(self.table.lookup(d.take(k)) is Some);
                        match action {
                            Some(a) => {
                                if k < size {
                                    assert(self.table.lookup(d.take(size as int)) is Some);
                                    assert(self.lookup(d.take(size as int)) is Some);
                                } else if k > size {
                                    assert(self.table.lookup(d.take(k)) is None);
                                } else {
                                    assert(self.lookup(d.take(k)) == Some(a@));
                                }
                            },
                            None => {
                                assert(self.table.lookup(d.take(k)) is None);
                            },
                        }
                    }
                }
            }
            if !cont {
                break ;
            }
            proof {
                let key = cursor@.data().take(size as int);
                assert(self.table.lookup(key) is Some);
                lemma_valid_advance(cursor@, size as int);
                let d = cursor@.data();
                let n = cursor@.offset - start.offset;
                use_type_invariant(&*cursor);
                assert(cursor@.bytes() == start.bytes());
                assert(start.data().skip(n) =~= d);
                assert(forall|j: int| size < j <= d.len() ==> #[trigger] self.table.lookup(d.take(j)) is None);
                assert(forall|j: int| size < j <= d.len() ==> #[trigger] self.lookup(d.take(j)) is None);
                lemma_key_len(*self, d, size as int);
                lemma_word_run_push(*self, start.data(), n, size as int);
            }
            cursor.advance(size);
            matched = true;
        }
        matched
    }
}

/// True when `c` is in `v`.
fn contains_char(v: &Vec<char>, c: char) -> (b: bool)
    ensures
        b == v@.contains(c),
{
    let mut i: usize = 0;
    while i < v.len()
        invariant
            0 <= i <= v@.len(),
            forall|j: int| 0 <= j < i ==> v@[j] != c,
        decreases v@.len() - i,
    {
        if v[i] == c {
            return true;
        }
        i = i + 1;
    }
    false
}

} // verus!
