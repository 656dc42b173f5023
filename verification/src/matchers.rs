//! Token matchers tried by the scanner before its symbol table: comments,
//! string literals and numbers.

use vstd::prelude::*;
use vstd::wrapping::u128_specs;

use crate::chars::digit_value;
use crate::errors::{ErrorView, Errors};
use crate::span::{lemma_split_chars, Span, SpanView, MAX_SOURCE_LEN};
use crate::text::chars_to_string;
use crate::token::{Token, TokenView};

verus! {

/// The span from `start` up to the start of `end`.
pub open spec fn span_between(start: SpanView, end: SpanView) -> SpanView {
    SpanView { length: end.offset - start.offset, ..start }
}

/// Common guarantees of a matcher: the cursor stays on the same source
/// with the same end and only moves forward, errors are only added, and a
/// match covers the characters read.
pub open spec fn matcher_post(
    old_cursor: SpanView,
    new_cursor: SpanView,
    old_errors: Seq<ErrorView>,
    new_errors: Seq<ErrorView>,
    res: Option<(TokenView, SpanView)>,
) -> bool {
    &&& new_cursor.source == old_cursor.source
    &&& new_cursor.end() == old_cursor.end()
    &&& new_cursor.offset >= old_cursor.offset
    &&& new_errors.len() >= old_errors.len()
    &&& new_errors.take(old_errors.len() as int) == old_errors
    &&& res matches Some((_, span)) ==> {
        &&& span == span_between(old_cursor, new_cursor)
        &&& new_cursor.offset > old_cursor.offset
    }
}

/// Matches a token at the cursor, advancing it past the token.
pub trait IsMatcher {
    fn try_match(&self, cursor: &mut Span, errors: &mut Errors) -> (res: Option<(Token, Span)>)
        ensures
            matcher_post(
                old(cursor)@,
                final(cursor)@,
                old(errors)@,
                final(errors)@,
                match res {
                    Some((t, s)) => Some((t@, s@)),
                    None => None,
                },
            ),
    ;
}

/// Index of the first line break at or after `i`, or the end.
pub open spec fn line_end(c: Seq<char>, i: int) -> int
    decreases c.len() - i,
{
    if i >= c.len() {
        c.len() as int
    } else if c[i] == '\n' || c[i] == '\r' {
        i
    } else {
        line_end(c, i + 1)
    }
}

/// Index just after the parenthesis closing nesting `level`, or the end.
pub open spec fn group_end(c: Seq<char>, i: int, level: int) -> int
    decreases c.len() - i,
{
    if i >= c.len() {
        c.len() as int
    } else if c[i] == '(' {
        group_end(c, i + 1, level + 1)
    } else if c[i] == ')' {
        if level <= 1 {
            i + 1
        } else {
            group_end(c, i + 1, level - 1)
        }
    } else {
        group_end(c, i + 1, level)
    }
}

/// Characters taken by a comment starting with `#`: up to the end of the
/// line, or for `#(` up to the matching close parenthesis.
pub open spec fn comment_len(c: Seq<char>) -> int {
    if c.len() > 1 && c[1] == '(' {
        group_end(c, 2, 1)
    } else {
        line_end(c, 1)
    }
}

proof fn lemma_line_end(c: Seq<char>, i: int)
    requires
        0 <= i <= c.len(),
    ensures
        i <= line_end(c, i) <= c.len(),
    decreases c.len() - i,
{
    if i < c.len() && !(c[i] == '\n' || c[i] == '\r') {
        lemma_line_end(c, i + 1);
    }
}

proof fn lemma_group_end(c: Seq<char>, i: int, level: int)
    requires
        0 <= i <= c.len(),
    ensures
        i <= group_end(c, i, level) <= c.len(),
    decreases c.len() - i,
{
    if i < c.len() {
        if c[i] == '(' {
            lemma_group_end(c, i + 1, level + 1);
        } else if c[i] == ')' {
            if level > 1 {
                lemma_group_end(c, i + 1, level - 1);
            }
        } else {
            lemma_group_end(c, i + 1, level);
        }
    }
}

/// Matches `#` comments.
pub struct CommentMatcher;

/// Marker value of a comment.
#[derive(Debug, Eq, PartialEq)]
pub struct Comment;

impl IsMatcher for CommentMatcher {
    fn try_match(&self, cursor: &mut Span, errors: &mut Errors) -> (res: Option<(Token, Span)>)
        ensures
            ({
                let c = old(cursor)@.chars();
                if c.len() > 0 && c[0] == '#' {
                    &&& res is Some
                    &&& res.unwrap().0@ == TokenView::Comment
                    &&& final(cursor)@.chars() == c.skip(comment_len(c))
                    &&& res.unwrap().1@.chars() == c.take(comment_len(c))
                } else {
                    &&& res is None
                    &&& final(cursor)@.chars() == c.skip(if c.len() > 0 {
                        1
                    } else {
                        0
                    })
                }
            }),
            final(errors)@ == old(errors)@,
    {
        proof {
            use_type_invariant(&*cursor);
        }
        let ghost c = cursor@.chars();
        let start = cursor.duplicate();
        let next = cursor.read();
        proof {
            assert(errors@.take(errors@.len() as int) == errors@);
        }
        match next {
            Some(first) => {
                if first != '#' {
                    return None;
                }
                proof {
                    assert(c.len() > 1 ==> c.drop_first()[0] == c[1]);
                }
                let multi = cursor.read_if('(');
                let mut level: usize = if multi {
                    1
                } else {
                    0
                };
                let ghost mut i: int = if multi {
                    2
                } else {
                    1
                };
                proof {
                    lemma_line_end(c, 1);
                    if multi {
                        lemma_group_end(c, 2, 1);
                    }
                    assert(MAX_SOURCE_LEN < usize::MAX);
                    assert(c.skip(1) == c.drop_first());
                    if multi {
                        assert(c.skip(2) == c.skip(1).drop_first());
                    }
                }
                loop
                    invariant_except_break
                        multi ==> 1 <= level && level <= cursor@.offset - start@.offset && group_end(
                            c,
                            i,
                            level as int,
                        ) == group_end(c, 2, 1),
                        !multi ==> line_end(c, i) == line_end(c, 1),
                    invariant
                        0 <= i <= c.len(),
                        cursor@.chars() == c.skip(i),
                        cursor@.source == start@.source,
                        cursor@.end() == start@.end(),
                        cursor@.offset > start@.offset,
                        c == start@.chars(),
                        c.len() > 0 && c[0] == '#',
                        multi == (c.len() > 1 && c[1] == '('),
                    ensures
                        i == comment_len(c),
                        0 <= i <= c.len(),
                        cursor@.chars() == c.skip(i),
                        cursor@.source == start@.source,
                        cursor@.end() == start@.end(),
                        cursor@.offset > start@.offset,
                    decreases cursor@.length,
                {
                    proof {
                        use_type_invariant(&*cursor);
                        use_type_invariant(&start);
                        assert(MAX_SOURCE_LEN < usize::MAX);
                    }
                    let pos = cursor.duplicate();
                    let ghost before = i;
                    match cursor.read() {
                        Some(ch) => {
                            proof {
                                use_type_invariant(&*cursor);
                                assert(cursor@.length < pos@.length);
                                assert(c.skip(i)[0] == c[i]);
                                assert(c.skip(i + 1) == c.skip(i).drop_first());
                                i = i + 1;
                            }
                            if !multi && (ch == '\n' || ch == '\r') {
                                *cursor = pos;
                                proof {
                                    i = before;
                                }
                                break ;
                            } else if multi && ch == '(' {
                                level = level + 1;
                            } else if multi && ch == ')' {
                                level = level - 1;
                                if level == 0 {
                                    break ;
                                }
                            }
                        },
                        None => {
                            proof {
                                assert(c.skip(i).len() == 0);
                            }
                            break ;
                        },
                    }
                }
                proof {
                    use_type_invariant(&*cursor);
                    use_type_invariant(&start);
                    lemma_split_chars(start@, cursor@);
                    assert(c.take(i) + c.skip(i) == c);
                }
                let span = cursor.span_from(&start);
                proof {
                    assert(span@.chars() + c.skip(i) == c);
                    assert(span@.chars() == c.take(i));
                }
                Some((Token::Comment, span))
            },
            None => None,
        }
    }
}

/// Index of the first quote at or after `i`, or the end.
pub open spec fn quote_end(c: Seq<char>, i: int) -> int
    decreases c.len() - i,
{
    if i >= c.len() {
        c.len() as int
    } else if c[i] == '\'' {
        i
    } else {
        quote_end(c, i + 1)
    }
}

/// Characters taken by a string literal that starts with a quote: up to
/// and including the closing quote, or all of them when it is unclosed.
pub open spec fn literal_len(c: Seq<char>) -> int {
    if quote_end(c, 1) < c.len() {
        quote_end(c, 1) + 1
    } else {
        c.len() as int
    }
}

proof fn lemma_quote_end(c: Seq<char>, i: int)
    requires
        0 <= i <= c.len(),
    ensures
        i <= quote_end(c, i) <= c.len(),
        forall|j: int| i <= j < quote_end(c, i) ==> c[j] != '\'',
    decreases c.len() - i,
{
    if i < c.len() && c[i] != '\'' {
        lemma_quote_end(c, i + 1);
    }
}

/// Matches string literals in single quotes.
pub struct LiteralMatcher;

impl IsMatcher for LiteralMatcher {
    fn try_match(&self, cursor: &mut Span, errors: &mut Errors) -> (res: Option<(Token, Span)>)
        ensures
            ({
                let c = old(cursor)@.chars();
                if c.len() > 0 && c[0] == '\'' {
                    &&& res is Some
                    &&& res.unwrap().0@ == TokenView::Literal(c.subrange(1, quote_end(c, 1)))
                    &&& res.unwrap().1@.chars() == c.take(literal_len(c))
                    &&& final(cursor)@.chars() == c.skip(literal_len(c))
                    &&& final(errors)@ == if quote_end(c, 1) < c.len() {
                        old(errors)@
                    } else {
                        old(errors)@.push(
                            ErrorView { message: "unclosed string literal"@, span: res.unwrap().1@ },
                        )
                    }
                } else {
                    &&& res is None
                    &&& final(errors)@ == old(errors)@
                    &&& final(cursor)@.chars() == c.skip(if c.len() > 0 {
                        1
                    } else {
                        0
                    })
                }
            }),
    {
        proof {
            use_type_invariant(&*cursor);
            assert(errors@.take(errors@.len() as int) == errors@);
        }
        let ghost c = cursor@.chars();
        let start = cursor.duplicate();
        let first = cursor.read();
        let is_quote = match first {
            Some(ch) => ch == '\'',
            None => false,
        };
        if !is_quote {
            return None;
        }
        let mut value: Vec<char> = Vec::new();
        let mut closed = false;
        let ghost mut i: int = 1;
        proof {
            lemma_quote_end(c, 1);
            assert(c.skip(1) == c.drop_first());
            assert(c.subrange(1, 1).len() == 0);
        }
        loop
            invariant_except_break
                quote_end(c, i) == quote_end(c, 1),
                value@ == c.subrange(1, i),
                !closed,
            invariant
                1 <= i <= c.len(),
                cursor@.chars() == c.skip(i),
                cursor@.source == start@.source,
                cursor@.end() == start@.end(),
                cursor@.offset > start@.offset,
                c == start@.chars(),
                c.len() > 0 && c[0] == '\'',
                1 <= quote_end(c, 1) <= c.len(),
            ensures
                i == literal_len(c),
                value@ == c.subrange(1, quote_end(c, 1)),
                closed == (quote_end(c, 1) < c.len()),
            decreases cursor@.length,
        {
            proof {
                use_type_invariant(&*cursor);
            }
            match cursor.read() {
                Some(ch) => {
                    proof {
                        use_type_invariant(&*cursor);
                        assert(c.skip(i)[0] == c[i]);
                        assert(c.skip(i + 1) == c.skip(i).drop_first());
                        assert(c.subrange(1, i + 1) == c.subrange(1, i).push(c[i]));
                        i = i + 1;
                    }
                    if ch == '\'' {
                        closed = true;
                        break ;
                    }
                    value.push(ch);
                },
                None => {
                    proof {
                        assert(c.skip(i).len() == 0);
                    }
                    break ;
                },
            }
        }
        proof {
            use_type_invariant(&*cursor);
            use_type_invariant(&start);
            lemma_split_chars(start@, cursor@);
            assert(c.take(i) + c.skip(i) == c);
        }
        let span = cursor.span_from(&start);
        proof {
            assert(span@.chars() + c.skip(i) == c);
            assert(span@.chars() == c.take(i));
        }
        if !closed {
            errors.add("unclosed string literal", span.duplicate());
        }
        assert(errors@.take(old(errors)@.len() as int) == old(errors)@);
        Some((Token::Literal(chars_to_string(value.as_slice())), span))
    }
}

/// Number of values of a `u128`.
pub open spec fn u128_range() -> nat {
    u128::MAX as nat + 1
}

pub open spec fn is_digit(ch: char) -> bool {
    '0' <= ch && ch <= '9'
}

/// Index of the first non-digit at or after `i`, or the end.
pub open spec fn digits_end(c: Seq<char>, i: int) -> int
    decreases c.len() - i,
{
    if i >= c.len() {
        c.len() as int
    } else if is_digit(c[i]) {
        digits_end(c, i + 1)
    } else {
        i
    }
}

/// Number of leading decimal digits.
pub open spec fn digit_run(c: Seq<char>) -> int {
    digits_end(c, 0)
}

/// Value of a sequence of decimal digits.
pub open spec fn digits_value(s: Seq<char>) -> nat
    decreases s.len(),
{
    if s.len() == 0 {
        0
    } else {
        digits_value(s.drop_last()) * 10 + ((s.last() as u32) - ('0' as u32)) as nat
    }
}

/// A dot followed by at least one digit.
pub open spec fn has_fraction(c: Seq<char>) -> bool {
    c.len() > 0 && c[0] == '.' && digit_run(c.skip(1)) > 0
}

/// Characters taken by a fraction: the dot and its digits.
pub open spec fn fraction_len(c: Seq<char>) -> int {
    if has_fraction(c) {
        1 + digit_run(c.skip(1))
    } else {
        0
    }
}

/// Starts with an exponent marker.
pub open spec fn has_exponent(c: Seq<char>) -> bool {
    c.len() > 0 && (c[0] == 'e' || c[0] == 'E')
}

/// Characters taken by an exponent marker and its optional sign.
pub open spec fn exponent_sign_len(c: Seq<char>) -> int {
    if c.len() > 1 && (c[1] == '+' || c[1] == '-') {
        2
    } else {
        1
    }
}

/// Number of digits of an exponent.
pub open spec fn exponent_digits(c: Seq<char>) -> int {
    digit_run(c.skip(exponent_sign_len(c)))
}

/// Characters taken by an exponent; an exponent without digits takes none.
pub open spec fn exponent_len(c: Seq<char>) -> int {
    if has_exponent(c) && exponent_digits(c) > 0 {
        exponent_sign_len(c) + exponent_digits(c)
    } else {
        0
    }
}

/// Length of the integer digits with the fraction, when there is one.
pub open spec fn mantissa_len(c: Seq<char>) -> int {
    digit_run(c) + fraction_len(c.skip(digit_run(c)))
}

/// Characters taken by a number.
pub open spec fn number_len(c: Seq<char>) -> int {
    mantissa_len(c) + exponent_len(c.skip(mantissa_len(c)))
}

/// A number with a fraction or an exponent marker is a float.
pub open spec fn is_float(c: Seq<char>) -> bool {
    has_fraction(c.skip(digit_run(c))) || has_exponent(c.skip(mantissa_len(c)))
}

/// An exponent marker without digits, which is reported as an error.
pub open spec fn bad_exponent(c: Seq<char>) -> bool {
    let e = c.skip(mantissa_len(c));
    has_exponent(e) && exponent_digits(e) == 0
}

proof fn lemma_digits_end(c: Seq<char>, i: int)
    requires
        0 <= i <= c.len(),
    ensures
        i <= digits_end(c, i) <= c.len(),
        forall|j: int| i <= j < digits_end(c, i) ==> is_digit(#[trigger] c[j]),
    decreases c.len() - i,
{
    if i < c.len() && is_digit(c[i]) {
        lemma_digits_end(c, i + 1);
    }
}

proof fn lemma_digit_step(x: nat, d: nat)
    requires
        d < 10,
    ensures
        u128_specs::wrapping_add(u128_specs::wrapping_mul((x % u128_range()) as u128, 10), d as u128)
            == ((x * 10 + d) % u128_range()) as u128,
{
    let m: int = u128_range() as int;
    let v: int = (x % u128_range()) as int;
    vstd::arithmetic::div_mod::lemma_mul_mod_noop_left(x as int, 10, m);
    let a: int = (v * 10) % m;
    assert(u128_specs::wrapping_mul(v as u128, 10) == a as u128);
    vstd::arithmetic::div_mod::lemma_add_mod_noop((x * 10) as int, d as int, m);
    vstd::arithmetic::div_mod::lemma_small_mod(d, m as nat);
    vstd::arithmetic::div_mod::lemma_mod_twice((x * 10) as int, m);
    if a + d >= m {
        vstd::arithmetic::div_mod::lemma_mod_sub_multiples_vanish(a + d - m, m);
        vstd::arithmetic::div_mod::lemma_small_mod((a + d - m) as nat, m as nat);
    } else {
        vstd::arithmetic::div_mod::lemma_small_mod((a + d) as nat, m as nat);
    }
}

/// Reads the next character when it is a decimal digit.
fn read_digit(cursor: &mut Span) -> (res: Option<char>)
    ensures
        ({
            let c = old(cursor)@.chars();
            if c.len() > 0 && is_digit(c[0]) {
                &&& res == Some(c[0])
                &&& final(cursor)@.chars() == c.drop_first()
                &&& final(cursor)@.offset > old(cursor)@.offset
            } else {
                &&& res is None
                &&& final(cursor)@ == old(cursor)@
            }
        }),
        final(cursor)@.source == old(cursor)@.source,
        final(cursor)@.end() == old(cursor)@.end(),
        final(cursor)@.offset >= old(cursor)@.offset,
{
    let save = cursor.duplicate();
    proof {
        use_type_invariant(&*cursor);
        if cursor@.length > 0 {
            crate::span::lemma_read_char(cursor@);
        }
    }
    match cursor.read() {
        Some(ch) => {
            if '0' <= ch && ch <= '9' {
                Some(ch)
            } else {
                *cursor = save;
                None
            }
        },
        None => None,
    }
}

/// Reads a run of decimal digits, returning their value (modulo the range
/// of a `u128`) and their number.
fn read_digits(cursor: &mut Span) -> (res: (u128, usize))
    ensures
        res.1 == digit_run(old(cursor)@.chars()),
        res.0 == digits_value(old(cursor)@.chars().take(res.1 as int)) % u128_range(),
        final(cursor)@.chars() == old(cursor)@.chars().skip(res.1 as int),
        final(cursor)@.source == old(cursor)@.source,
        final(cursor)@.end() == old(cursor)@.end(),
        final(cursor)@.offset >= old(cursor)@.offset,
        res.1 > 0 ==> final(cursor)@.offset > old(cursor)@.offset,
        res.1 == 0 ==> final(cursor)@ == old(cursor)@,
{
    let ghost c = cursor@.chars();
    let ghost start = cursor@;
    let mut value: u128 = 0;
    let mut count: usize = 0;
    proof {
        use_type_invariant(&*cursor);
        lemma_digits_end(c, 0);
        assert(c.take(0).len() == 0);
        assert(digits_value(c.take(0)) == 0);
        vstd::arithmetic::div_mod::lemma_small_mod(0, u128_range());
        assert(c.skip(0) == c);
    }
    loop
        invariant_except_break
            digits_end(c, count as int) == digits_end(c, 0),
        invariant
            0 <= count <= c.len(),
            cursor@.chars() == c.skip(count as int),
            cursor@.source == start.source,
            cursor@.end() == start.end(),
            cursor@.offset >= start.offset,
            count > 0 ==> cursor@.offset > start.offset,
            count == 0 ==> cursor@ == start,
            cursor@.offset - start.offset >= count,
            start.wf(),
            value == digits_value(c.take(count as int)) % u128_range(),
        ensures
            count == digit_run(c),
        decreases cursor@.length,
    {
        proof {
            use_type_invariant(&*cursor);
        }
        match read_digit(cursor) {
            Some(ch) => {
                proof {
                    use_type_invariant(&*cursor);
                    assert(c.skip(count as int)[0] == c[count as int]);
                    assert(c.skip(count + 1) == c.skip(count as int).drop_first());
                    let t = c.take(count + 1);
                    assert(t.drop_last() == c.take(count as int));
                    lemma_digit_step(digits_value(c.take(count as int)), ((ch as u32) - ('0' as u32)) as nat);
                }
                value = value.wrapping_mul(10).wrapping_add(digit_value(ch));
                count = count + 1;
            },
            None => {
                break ;
            },
        }
    }
    (value, count)
}

proof fn lemma_skip_skip(c: Seq<char>, a: int, b: int)
    requires
        0 <= a,
        0 <= b,
        a + b <= c.len(),
    ensures
        c.skip(a).skip(b) == c.skip(a + b),
{
    assert(c.skip(a).skip(b) =~= c.skip(a + b));
}

proof fn lemma_digit_run(c: Seq<char>)
    ensures
        0 <= digit_run(c) <= c.len(),
        c.len() > 0 && is_digit(c[0]) ==> digit_run(c) > 0,
{
    lemma_digits_end(c, 0);
    if c.len() > 0 && is_digit(c[0]) {
        lemma_digits_end(c, 1);
    }
}

/// Reads a dot and the digits after it, when there is at least one.
fn read_fraction(cursor: &mut Span) -> (found: bool)
    ensures
        found == has_fraction(old(cursor)@.chars()),
        final(cursor)@.chars() == old(cursor)@.chars().skip(fraction_len(old(cursor)@.chars())),
        final(cursor)@.source == old(cursor)@.source,
        final(cursor)@.end() == old(cursor)@.end(),
        final(cursor)@.offset >= old(cursor)@.offset,
{
    let ghost c = cursor@.chars();
    let save = cursor.duplicate();
    proof {
        assert(c.skip(0) == c);
    }
    if cursor.read_if('.') {
        proof {
            assert(c.skip(1) == c.drop_first());
            lemma_digit_run(c.skip(1));
        }
        let (_, m) = read_digits(cursor);
        proof {
            lemma_skip_skip(c, 1, m as int);
        }
        if m > 0 {
            return true;
        }
    }
    *cursor = save;
    false
}

/// Reads an exponent marker, its optional sign and its digits. Returns
/// whether a marker was seen and whether digits followed it; without
/// digits the cursor is left unchanged.
fn read_exponent(cursor: &mut Span) -> (res: (bool, bool))
    ensures
        res.0 == has_exponent(old(cursor)@.chars()),
        res.1 == (has_exponent(old(cursor)@.chars()) && exponent_digits(old(cursor)@.chars()) > 0),
        final(cursor)@.chars() == old(cursor)@.chars().skip(exponent_len(old(cursor)@.chars())),
        final(cursor)@.source == old(cursor)@.source,
        final(cursor)@.end() == old(cursor)@.end(),
        final(cursor)@.offset >= old(cursor)@.offset,
{
    let ghost c = cursor@.chars();
    let save = cursor.duplicate();
    proof {
        assert(c.skip(0) == c);
    }
    let mut marker = cursor.read_if('e');
    if !marker {
        marker = cursor.read_if('E');
    }
    if !marker {
        return (false, false);
    }
    proof {
        assert(c.skip(1) == c.drop_first());
        assert(c.len() > 1 ==> c.skip(1)[0] == c[1]);
    }
    let signed = cursor.read_if('+');
    if !signed {
        cursor.read_if('-');
    }
    let ghost sl = exponent_sign_len(c);
    proof {
        if sl == 2 {
            assert(c.skip(2) == c.skip(1).drop_first());
        }
        lemma_digit_run(c.skip(sl));
    }
    let (_, k) = read_digits(cursor);
    proof {
        lemma_skip_skip(c, sl, k as int);
    }
    if k > 0 {
        (true, true)
    } else {
        *cursor = save;
        (true, false)
    }
}

/// Matches decimal integers and floats with an optional fraction and
/// exponent.
pub struct IntegerMatcher;

impl IsMatcher for IntegerMatcher {
    fn try_match(&self, cursor: &mut Span, errors: &mut Errors) -> (res: Option<(Token, Span)>)
        ensures
            ({
                let c = old(cursor)@.chars();
                if c.len() > 0 && is_digit(c[0]) {
                    &&& res is Some
                    &&& res.unwrap().0@ == if is_float(c) {
                        TokenView::Float(c.take(number_len(c)))
                    } else {
                        TokenView::Integer(
                            (digits_value(c.take(digit_run(c))) % u128_range()) as u128,
                        )
                    }
                    &&& res.unwrap().1@.chars() == c.take(number_len(c))
                    &&& final(cursor)@.chars() == c.skip(number_len(c))
                    &&& final(errors)@ == if bad_exponent(c) {
                        old(errors)@.push(
                            ErrorView { message: "invalid float literal"@, span: res.unwrap().1@ },
                        )
                    } else {
                        old(errors)@
                    }
                } else {
                    &&& res is None
                    &&& final(errors)@ == old(errors)@
                    &&& final(cursor)@ == old(cursor)@
                }
            }),
    {
        proof {
            use_type_invariant(&*cursor);
            assert(errors@.take(errors@.len() as int) == errors@);
            lemma_digit_run(old(cursor)@.chars());
        }
        let ghost c = cursor@.chars();
        let start = cursor.duplicate();
        let (value, n) = read_digits(cursor);
        if n == 0 {
            return None;
        }
        let ghost d: int = n as int;
        let fraction = read_fraction(cursor);
        let ghost ml = mantissa_len(c);
        proof {
            let r = c.skip(d);
            if has_fraction(r) {
                lemma_digit_run(r.skip(1));
            }
            lemma_skip_skip(c, d, fraction_len(r));
        }
        assert(cursor@.chars() == c.skip(ml));
        let (marker, valid) = read_exponent(cursor);
        assert(marker == has_exponent(c.skip(ml)));
        assert(valid == (has_exponent(c.skip(ml)) && exponent_digits(c.skip(ml)) > 0));
        let ghost nl = number_len(c);
        proof {
            let e = c.skip(ml);
            lemma_digit_run(e.skip(exponent_sign_len(e)));
            lemma_skip_skip(c, ml, exponent_len(e));
            use_type_invariant(&*cursor);
            use_type_invariant(&start);
            lemma_split_chars(start@, cursor@);
            assert(c.take(nl) + c.skip(nl) =~= c);
        }
        let span = cursor.span_from(&start);
        proof {
            assert(span@.chars() + c.skip(nl) == c);
            assert(span@.chars() =~= c.take(nl));
        }
        assert((marker && !valid) == bad_exponent(c));
        if marker && !valid {
            errors.add("invalid float literal", span.duplicate());
        }
        proof {
            assert(errors@.take(old(errors)@.len() as int) == old(errors)@);
        }
        assert(fraction == has_fraction(c.skip(d)));
        assert(marker == has_exponent(c.skip(ml)));
        assert(value == (digits_value(c.take(digit_run(c))) % u128_range()));
        let token = if fraction || marker {
            let t = span.text();
            assert(t@ == c.take(nl));
            Token::Float(t.to_owned())
        } else {
            Token::Integer(value)
        };
        Some((token, span))
    }
}

/// The token matchers a scanner can be configured with.
#[derive(Clone, Copy, Debug, PartialEq, Eq)]
pub enum MatcherKind {
    Comment,
    Literal,
    Integer,
}

/// What a matcher finds at the start of `c`: the token and the number of
/// characters it takes.
pub open spec fn kind_match(kind: MatcherKind, c: Seq<char>) -> Option<(TokenView, int)> {
    match kind {
        MatcherKind::Comment => if c.len() > 0 && c[0] == '#' {
            Some((TokenView::Comment, comment_len(c)))
        } else {
            None
        },
        MatcherKind::Literal => if c.len() > 0 && c[0] == '\'' {
            Some((TokenView::Literal(c.subrange(1, quote_end(c, 1))), literal_len(c)))
        } else {
            None
        },
        MatcherKind::Integer => if c.len() > 0 && is_digit(c[0]) {
            Some(
                (
                    if is_float(c) {
                        TokenView::Float(c.take(number_len(c)))
                    } else {
                        TokenView::Integer((digits_value(c.take(digit_run(c))) % u128_range()) as u128)
                    },
                    number_len(c),
                ),
            )
        } else {
            None
        },
    }
}

/// The error a matcher reports for its match at the start of `c`, if any.
pub open spec fn kind_error(kind: MatcherKind, c: Seq<char>) -> Option<Seq<char>> {
    match kind {
        MatcherKind::Comment => None,
        MatcherKind::Literal => if c.len() > 0 && c[0] == '\'' && quote_end(c, 1) >= c.len() {
            Some("unclosed string literal"@)
        } else {
            None
        },
        MatcherKind::Integer => if c.len() > 0 && is_digit(c[0]) && bad_exponent(c) {
            Some("invalid float literal"@)
        } else {
            None
        },
    }
}

/// A match takes at least one and at most all of the characters.
pub proof fn lemma_kind_match_len(kind: MatcherKind, c: Seq<char>)
    ensures
        kind_match(kind, c) matches Some((_, n)) ==> 0 < n <= c.len(),
{
    if c.len() == 0 {
        return;
    }
    match kind {
        MatcherKind::Comment => {
            lemma_line_end(c, 1);
            if c.len() > 1 {
                lemma_group_end(c, 2, 1);
            }
        },
        MatcherKind::Literal => {
            lemma_quote_end(c, 1);
        },
        MatcherKind::Integer => {
            lemma_digit_run(c);
            let d = digit_run(c);
            lemma_digit_run(c.skip(d));
            if has_fraction(c.skip(d)) {
                lemma_digit_run(c.skip(d).skip(1));
            }
            let m = mantissa_len(c);
            let e = c.skip(m);
            if m <= c.len() {
                lemma_digit_run(e.skip(exponent_sign_len(e)));
            }
        },
    }
}

impl MatcherKind {
    /// Runs the matcher at the cursor. On a match the cursor is left after
    /// the token; an error of the match is added to `errors`.
    pub fn try_match(&self, cursor: &mut Span, errors: &mut Errors) -> (res: Option<(Token, Span)>)
        ensures
            matcher_post(
                old(cursor)@,
                final(cursor)@,
                old(errors)@,
                final(errors)@,
                match res {
                    Some((t, s)) => Some((t@, s@)),
                    None => None,
                },
            ),
            ({
                let c = old(cursor)@.chars();
                match kind_match(*self, c) {
                    Some((t, n)) => {
                        &&& res is Some
                        &&& res.unwrap().0@ == t
                        &&& res.unwrap().1@.chars() == c.take(n)
                        &&& final(cursor)@.chars() == c.skip(n)
                        &&& final(errors)@ == match kind_error(*self, c) {
                            Some(m) => old(errors)@.push(
                                ErrorView { message: m, span: res.unwrap().1@ },
                            ),
                            None => old(errors)@,
                        }
                    },
                    None => {
                        &&& res is None
                        &&& final(errors)@ == old(errors)@
                    },
                }
            }),
    {
        match self {
            MatcherKind::Comment => CommentMatcher.try_match(cursor, errors),
            MatcherKind::Literal => LiteralMatcher.try_match(cursor, errors),
            MatcherKind::Integer => IntegerMatcher.try_match(cursor, errors),
        }
    }
}

} // verus!
