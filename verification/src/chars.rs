//! Byte level character classification used by the scanner.

use vstd::prelude::*;

verus! {

/// A UTF-8 continuation byte (`0b10xx_xxxx`).
pub open spec fn is_cont_byte(b: u8) -> bool {
    0x80 <= b && b < 0xC0
}

/// Index of the first byte at or after `i` that is not a continuation byte,
/// or the length of the input when there is none.
pub open spec fn cont_run_end(s: Seq<u8>, i: int) -> int
    decreases s.len() - i,
{
    if i >= s.len() {
        s.len() as int
    } else if !is_cont_byte(s[i]) {
        i
    } else {
        cont_run_end(s, i + 1)
    }
}

/// Size of the leading character: zero for an empty input, else the lead
/// byte plus all the continuation bytes that follow it.
pub open spec fn spec_char_size(s: Seq<u8>) -> int {
    if s.len() == 0 {
        0
    } else if s.len() == 1 {
        1
    } else {
        cont_run_end(s, 1)
    }
}

pub proof fn lemma_cont_run_end_bounds(s: Seq<u8>, i: int)
    requires
        0 <= i <= s.len(),
    ensures
        i <= cont_run_end(s, i) <= s.len(),
        forall|j: int| i <= j < cont_run_end(s, i) ==> is_cont_byte(#[trigger] s[j]),
        cont_run_end(s, i) < s.len() ==> !is_cont_byte(s[cont_run_end(s, i)]),
    decreases s.len() - i,
{
    if i < s.len() && is_cont_byte(s[i]) {
        lemma_cont_run_end_bounds(s, i + 1);
    }
}

pub proof fn lemma_char_size_bounds(s: Seq<u8>)
    ensures
        s.len() == 0 ==> spec_char_size(s) == 0,
        s.len() > 0 ==> 0 < spec_char_size(s) <= s.len(),
{
    if s.len() > 1 {
        lemma_cont_run_end_bounds(s, 1);
    }
}

/// Size in bytes of the leading character of `input`.
///
/// The size is computed from the continuation bytes only, so a truncated
/// or malformed sequence still advances by at least one byte.
pub fn char_size(input: &[u8]) -> (size: usize)
    ensures
        size == spec_char_size(input@),
        input@.len() > 0 ==> 0 < size <= input@.len(),
        input@.len() == 0 ==> size == 0,
{
    proof {
        lemma_char_size_bounds(input@);
    }
    let n = input.len();
    if n == 0 {
        0
    } else if n == 1 {
        1
    } else {
        let mut i: usize = 1;
        while i < n
            invariant
                1 <= i <= n,
                n == input@.len(),
                n > 1,
                cont_run_end(input@, i as int) == cont_run_end(input@, 1),
            decreases n - i,
        {
            let b = input[i];
            assert((b & 0xC0u8 == 0x80u8) == (0x80u8 <= b && b < 0xC0u8)) by (bit_vector);
            let cont = b & 0b1100_0000 == 0b1000_0000;
            if !cont {
                return i;
            }
            i = i + 1;
        }
        n
    }
}

/// Recognizes a single space or tab at the start of the input.
pub open spec fn spec_check_space(s: Seq<u8>) -> Option<(char, usize)> {
    if s.len() > 0 && s[0] == 0x20u8 {
        Some((' ', 1usize))
    } else if s.len() > 0 && s[0] == 0x09u8 {
        Some(('\t', 1usize))
    } else {
        None
    }
}

/// Returns the leading space or tab character and its size.
pub fn check_space(input: &[u8]) -> (res: Option<(char, usize)>)
    ensures
        res == spec_check_space(input@),
{
    if input.len() > 0 && input[0] == 0x20u8 {
        Some((' ', 1))
    } else if input.len() > 0 && input[0] == 0x09u8 {
        Some(('\t', 1))
    } else {
        None
    }
}

/// Recognizes a line break (LF, CR or CR+LF) at the start of the input.
pub open spec fn spec_check_line_break(s: Seq<u8>) -> Option<usize> {
    if s.len() == 0 {
        None
    } else if s[0] == 0x0Au8 {
        Some(1usize)
    } else if s[0] == 0x0Du8 {
        if s.len() > 1 && s[1] == 0x0Au8 {
            Some(2usize)
        } else {
            Some(1usize)
        }
    } else {
        None
    }
}

/// Returns the size of the line break at the start of the input, if any.
pub fn check_line_break(input: &[u8]) -> (res: Option<usize>)
    ensures
        res == spec_check_line_break(input@),
        res matches Some(n) ==> 0 < n <= input@.len(),
{
    let cr: u8 = 0x0D;
    let lf: u8 = 0x0A;
    if input.len() == 0 {
        None
    } else if input.len() == 1 {
        if input[0] == cr || input[0] == lf {
            Some(1)
        } else {
            None
        }
    } else if input[0] == lf {
        Some(1)
    } else if input[0] == cr {
        Some(if input[1] == lf { 2 } else { 1 })
    } else {
        None
    }
}

/// Numeric value of a decimal digit character.
pub fn digit_value(n: char) -> (v: u128)
    requires
        '0' <= n,
    ensures
        v == (n as u32) - ('0' as u32),
{
    (n as u128) - ('0' as u128)
}

/// Whitespace inside a line (space and tab).
pub open spec fn spec_is_space(c: char) -> bool {
    c == ' ' || c == '\t'
}

/// True for the characters that the scanner treats as inline whitespace.
pub fn is_space(c: char) -> (b: bool)
    ensures
        b == spec_is_space(c),
{
    c == ' ' || c == '\t'
}

} // verus!

verus! {

/// Index `i` starts a character of `bytes` (or is its end), judged by the
/// byte at `i` not being a continuation byte.
pub open spec fn at_boundary(bytes: Seq<u8>, i: int) -> bool {
    i == bytes.len() || (0 <= i < bytes.len() && !is_cont_byte(bytes[i]))
}

/// In valid UTF-8, a valid prefix ends at a character boundary.
pub proof fn lemma_valid_prefix_boundary(s: Seq<u8>, k: int)
    requires
        vstd::utf8::valid_utf8(s),
        0 <= k <= s.len(),
        vstd::utf8::valid_utf8(s.take(k)),
    ensures
        at_boundary(s, k),
    decreases k,
{
    if k > 0 {
        let w = s.take(k);
        assert(vstd::utf8::valid_first_scalar(w));
        assert(vstd::utf8::valid_first_scalar(s));
        let n = vstd::utf8::length_of_first_scalar(w);
        assert(w[0] == s[0]);
        assert(n == vstd::utf8::length_of_first_scalar(s));
        let ps = vstd::utf8::pop_first_scalar(s);
        let pw = vstd::utf8::pop_first_scalar(w);
        assert(pw == ps.take(k - n));
        lemma_valid_prefix_boundary(ps, k - n);
        if k - n < ps.len() {
            assert(ps[k - n] == s[k]);
        }
    } else if s.len() > 0 {
        assert(vstd::utf8::valid_first_scalar(s));
    }
}

/// In valid UTF-8, a valid chunk starting at a boundary ends at a boundary.
pub proof fn lemma_valid_chunk_boundary(bytes: Seq<u8>, i: int, k: int)
    requires
        vstd::utf8::valid_utf8(bytes),
        at_boundary(bytes, i),
        0 <= k,
        i + k <= bytes.len(),
        vstd::utf8::valid_utf8(bytes.subrange(i, i + k)),
    ensures
        at_boundary(bytes, i + k),
{
    if i < bytes.len() {
        vstd::utf8::is_char_boundary_iff_not_is_continuation_byte(bytes, i);
    } else {
        vstd::utf8::is_char_boundary_start_end_of_seq(bytes);
    }
    vstd::utf8::valid_utf8_split(bytes, i);
    let s = bytes.subrange(i, bytes.len() as int);
    assert(s.take(k) == bytes.subrange(i, i + k));
    lemma_valid_prefix_boundary(s, k);
    if k < s.len() {
        assert(s[k] == bytes[i + k]);
    }
}

/// A sequence of ASCII bytes is valid UTF-8.
pub proof fn lemma_ascii_chunk_valid(s: Seq<u8>)
    requires
        forall|i: int| 0 <= i < s.len() ==> #[trigger] s[i] < 0x80,
    ensures
        vstd::utf8::valid_utf8(s),
    decreases s.len(),
{
    if s.len() > 0 {
        assert(vstd::utf8::valid_first_scalar(s));
        let p = vstd::utf8::pop_first_scalar(s);
        assert(forall|i: int| 0 <= i < p.len() ==> p[i] == s[i + 1]);
        lemma_ascii_chunk_valid(p);
    }
}

/// The first byte of non-empty valid UTF-8 starts a character.
pub proof fn lemma_valid_start_boundary(bytes: Seq<u8>)
    requires
        vstd::utf8::valid_utf8(bytes),
    ensures
        at_boundary(bytes, 0),
{
    if bytes.len() > 0 {
        assert(vstd::utf8::valid_first_scalar(bytes));
    }
}

} // verus!
