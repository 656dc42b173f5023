//! Tokens produced by the scanner.

use vstd::prelude::*;

verus! {

/// Low level tokens generated by the [`crate::matcher::Matcher`].
#[derive(Clone, Debug, PartialEq, Eq)]
pub enum Token {
    /// Line break, with the indentation of the next line.
    Break(usize),
    Comment,
    Word(String),
    Symbol(String),
    Literal(String),
    Integer(u128),
    Float(String),
}

/// Mathematical view of a [`Token`].
pub enum TokenView {
    Break(int),
    Comment,
    Word(Seq<char>),
    Symbol(Seq<char>),
    Literal(Seq<char>),
    Integer(u128),
    Float(Seq<char>),
}

impl View for Token {
    type V = TokenView;

    open spec fn view(&self) -> TokenView {
        match self {
            Token::Break(n) => TokenView::Break(*n as int),
            Token::Comment => TokenView::Comment,
            Token::Word(s) => TokenView::Word(s@),
            Token::Symbol(s) => TokenView::Symbol(s@),
            Token::Literal(s) => TokenView::Literal(s@),
            Token::Integer(n) => TokenView::Integer(*n),
            Token::Float(s) => TokenView::Float(s@),
        }
    }
}

/// Display text of a token.
pub open spec fn token_text(t: TokenView) -> Seq<char> {
    match t {
        TokenView::Break(..) => "line break"@,
        TokenView::Comment => "comment"@,
        TokenView::Word(s) => s,
        TokenView::Symbol(s) => s,
        TokenView::Literal(s) => crate::text::debug_quoted(s),
        TokenView::Integer(v) => crate::text::decimal(v as nat),
        TokenView::Float(s) => s,
    }
}

impl Token {
    /// Display text of the token: literals quoted and escaped.
    pub fn to_text(&self) -> (s: String)
        ensures
            s@ == token_text(self@),
    {
        match self {
            Token::Break(..) => "line break".to_owned(),
            Token::Comment => "comment".to_owned(),
            Token::Word(s) => s.clone(),
            Token::Symbol(s) => s.clone(),
            Token::Literal(s) => crate::text::debug_str(s.as_str()),
            Token::Integer(v) => {
                let mut out: Vec<char> = Vec::new();
                crate::text::push_decimal_u128(&mut out, *v);
                crate::text::chars_to_string(out.as_slice())
            },
            Token::Float(s) => s.clone(),
        }
    }

    /// True for a symbol token with the given text.
    pub fn is_symbol(&self, symbol: &str) -> (b: bool)
        ensures
            b == (self@ == TokenView::Symbol(symbol@)),
    {
        match self {
            Token::Symbol(s) => str_eq(s.as_str(), symbol),
            _ => false,
        }
    }

    /// True for a line break token.
    pub fn is_break(&self) -> (b: bool)
        ensures
            b == (self@ is Break),
    {
        match self {
            Token::Break(..) => true,
            _ => false,
        }
    }

    /// True for a comment token.
    pub fn is_comment(&self) -> (b: bool)
        ensures
            b == (self@ is Comment),
    {
        match self {
            Token::Comment => true,
            _ => false,
        }
    }

    /// Text of a symbol token.
    pub fn symbol(&self) -> (s: Option<&str>)
        ensures
            match self@ {
                TokenView::Symbol(t) => s is Some && s.unwrap()@ == t,
                _ => s is None,
            },
    {
        match self {
            Token::Symbol(s) => Some(s.as_str()),
            _ => None,
        }
    }

    /// A copy of the token.
    pub fn duplicate(&self) -> (t: Token)
        ensures
            t@ == self@,
    {
        match self {
            Token::Break(n) => Token::Break(*n),
            Token::Comment => Token::Comment,
            Token::Word(s) => Token::Word(s.clone()),
            Token::Symbol(s) => Token::Symbol(s.clone()),
            Token::Literal(s) => Token::Literal(s.clone()),
            Token::Integer(n) => Token::Integer(*n),
            Token::Float(s) => Token::Float(s.clone()),
        }
    }
}

/// Character-wise string comparison.
pub fn str_eq(a: &str, b: &str) -> (eq: bool)
    ensures
        eq == (a@ == b@),
{
    let n = a.unicode_len();
    if n != b.unicode_len() {
        return false;
    }
    let mut i: usize = 0;
    while i < n
        invariant
            0 <= i <= n,
            n == a@.len(),
            n == b@.len(),
            forall|j: int| 0 <= j < i ==> a@[j] == b@[j],
        decreases n - i,
    {
        if a.get_char(i) != b.get_char(i) {
            return false;
        }
        i = i + 1;
    }
    assert(a@ == b@);
    true
}

} // verus!
