//! Splits expression text into tokens.

use vstd::prelude::*;
use vstd::string::{StrSliceExecFns, StringExecFns};
use crate::num::{decimal_value, is_numeric, Num};

verus! {

/// A token of expression text.
#[derive(Debug, PartialEq)]
pub enum Token {
    /// A numeral, `[0-9.]+`.
    Number(Num),
    /// A name, `[A-Za-z]+`.
    Identifier(String),
    Plus,
    Minus,
    Asterisk,
    Slash,
    /// `^`, or its alias `**`.
    Exponent,
    OpenParen,
    CloseParen,
    /// A character that starts no token, or a numeral without a value.
    Error,
    /// The end of the input; never produced by `lex`, read by the parser
    /// past the last token.
    Eof,
}

/// The mathematical view of a `Token`.
pub enum Tok {
    Number((int, int)),
    Identifier(Seq<char>),
    Plus,
    Minus,
    Asterisk,
    Slash,
    Exponent,
    OpenParen,
    CloseParen,
    Error,
    Eof,
}

impl View for Token {
    type V = Tok;

    open spec fn view(&self) -> Tok {
        match self {
            Token::Number(n) => Tok::Number(n@),
            Token::Identifier(s) => Tok::Identifier(s@),
            Token::Plus => Tok::Plus,
            Token::Minus => Tok::Minus,
            Token::Asterisk => Tok::Asterisk,
            Token::Slash => Tok::Slash,
            Token::Exponent => Tok::Exponent,
            Token::OpenParen => Tok::OpenParen,
            Token::CloseParen => Tok::CloseParen,
            Token::Error => Tok::Error,
            Token::Eof => Tok::Eof,
        }
    }
}

pub open spec fn tokens_view(v: Seq<Token>) -> Seq<Tok> {
    v.map_values(|t: Token| t@)
}

/// Left and right binding powers of an infix operator, `(-1, -1)` for any
/// other token.
pub open spec fn infix_bp(t: Tok) -> (int, int) {
    match t {
        Tok::Plus | Tok::Minus => (1, 2),
        Tok::Asterisk | Tok::Slash => (3, 4),
        Tok::Exponent => (6, 5),
        _ => (-1, -1),
    }
}

/// Right binding power of a prefix operator, `-1` for any other token.
pub open spec fn prefix_bp(t: Tok) -> int {
    match t {
        Tok::Plus | Tok::Minus => 8,
        _ => -1,
    }
}

impl Token {
    /// Returns the binding power for the binary (infix) operator or `(-1, -1)` if not a valid operator.
    pub fn get_infix_bp(&self) -> (r: (i32, i32))
        ensures
            (r.0 as int, r.1 as int) == infix_bp(self@),
    {
        match self {
            Token::Plus | Token::Minus => (1, 2),
            Token::Asterisk | Token::Slash => (3, 4),
            Token::Exponent => (6, 5),
            _ => (-1, -1),
        }
    }

    /// Returns the binding power for the prefix operator or `((), -1)` if not a valid operator.
    pub fn get_prefix_bp(&self) -> (r: ((), i32))
        ensures
            r.1 as int == prefix_bp(self@),
    {
        match self {
            Token::Plus | Token::Minus => ((), 8),
            _ => ((), -1),
        }
    }
}

pub open spec fn is_space(c: char) -> bool {
    c == ' ' || c == '\t' || c == '\n' || c == '\x0C'
}

pub open spec fn is_alpha(c: char) -> bool {
    ('a' <= c <= 'z') || ('A' <= c <= 'Z')
}

/// The end of the run of numeral characters that starts at `i`.
pub open spec fn numeric_end(s: Seq<char>, i: int) -> int
    decreases s.len() - i,
{
    if 0 <= i < s.len() && is_numeric(s[i]) {
        numeric_end(s, i + 1)
    } else {
        i
    }
}

/// The end of the run of letters that starts at `i`.
pub open spec fn alpha_end(s: Seq<char>, i: int) -> int
    decreases s.len() - i,
{
    if 0 <= i < s.len() && is_alpha(s[i]) {
        alpha_end(s, i + 1)
    } else {
        i
    }
}

pub proof fn lemma_numeric_end(s: Seq<char>, i: int)
    requires
        0 <= i <= s.len(),
    ensures
        i <= numeric_end(s, i) <= s.len(),
        forall|j: int| i <= j < numeric_end(s, i) ==> is_numeric(#[trigger] s[j]),
    decreases s.len() - i,
{
    if i < s.len() && is_numeric(s[i]) {
        lemma_numeric_end(s, i + 1);
    }
}

pub proof fn lemma_alpha_end(s: Seq<char>, i: int)
    requires
        0 <= i <= s.len(),
    ensures
        i <= alpha_end(s, i) <= s.len(),
        forall|j: int| i <= j < alpha_end(s, i) ==> is_alpha(#[trigger] s[j]),
    decreases s.len() - i,
{
    if i < s.len() && is_alpha(s[i]) {
        lemma_alpha_end(s, i + 1);
    }
}

/// The token of a single operator or parenthesis character, else `Error`.
pub open spec fn symbol_token(c: char) -> Tok {
    if c == '+' {
        Tok::Plus
    } else if c == '-' {
        Tok::Minus
    } else if c == '*' {
        Tok::Asterisk
    } else if c == '/' {
        Tok::Slash
    } else if c == '^' {
        Tok::Exponent
    } else if c == '(' {
        Tok::OpenParen
    } else if c == ')' {
        Tok::CloseParen
    } else {
        Tok::Error
    }
}

pub open spec fn number_token(s: Seq<char>) -> Tok {
    match decimal_value(s) {
        Some(v) => Tok::Number(v),
        None => Tok::Error,
    }
}

/// The tokens of `s` from position `i` on: whitespace is skipped, the
/// longest run of numeral characters or of letters makes one token, `**`
/// is one token, and any other character is a token by itself.
pub open spec fn lex_from(s: Seq<char>, i: int) -> Seq<Tok>
    decreases s.len() - i,
{
    if i < 0 || i >= s.len() {
        seq![]
    } else if is_space(s[i]) {
        lex_from(s, i + 1)
    } else if is_numeric(s[i]) {
        let j = numeric_end(s, i + 1);
        proof {
            lemma_numeric_end(s, i + 1);
        }
        seq![number_token(s.subrange(i, j))] + lex_from(s, j)
    } else if is_alpha(s[i]) {
        let j = alpha_end(s, i + 1);
        proof {
            lemma_alpha_end(s, i + 1);
        }
        seq![Tok::Identifier(s.subrange(i, j))] + lex_from(s, j)
    } else if s[i] == '*' && i + 1 < s.len() && s[i + 1] == '*' {
        seq![Tok::Exponent] + lex_from(s, i + 2)
    } else {
        seq![symbol_token(s[i])] + lex_from(s, i + 1)
    }
}

pub open spec fn lex_spec(s: Seq<char>) -> Seq<Tok> {
    lex_from(s, 0)
}

pub fn is_numeric_char(c: char) -> (r: bool)
    ensures
        r == is_numeric(c),
{
    ('0' <= c && c <= '9') || c == '.'
}

fn is_alpha_char(c: char) -> (r: bool)
    ensures
        r == is_alpha(c),
{
    ('a' <= c && c <= 'z') || ('A' <= c && c <= 'Z')
}

pub fn is_space_char(c: char) -> (r: bool)
    ensures
        r == is_space(c),
{
    c == ' ' || c == '\t' || c == '\n' || c == '\x0C'
}

/// The end of the run of numeral characters of `s` that starts at `i`.
pub fn scan_numeric(s: &str, n: usize, i: usize) -> (r: usize)
    requires
        n == s@.len(),
        i <= n,
    ensures
        r as int == numeric_end(s@, i as int),
{
    let mut j = i;
    while j < n && is_numeric_char(s.get_char(j))
        invariant
            n == s@.len(),
            i <= j <= n,
            numeric_end(s@, j as int) == numeric_end(s@, i as int),
        decreases n - j,
    {
        j = j + 1;
    }
    j
}

fn scan_alpha(s: &str, n: usize, i: usize) -> (r: usize)
    requires
        n == s@.len(),
        i <= n,
    ensures
        r as int == alpha_end(s@, i as int),
{
    let mut j = i;
    while j < n && is_alpha_char(s.get_char(j))
        invariant
            n == s@.len(),
            i <= j <= n,
            alpha_end(s@, j as int) == alpha_end(s@, i as int),
        decreases n - j,
    {
        j = j + 1;
    }
    j
}

fn symbol(c: char) -> (r: Token)
    ensures
        r@ == symbol_token(c),
{
    if c == '+' {
        Token::Plus
    } else if c == '-' {
        Token::Minus
    } else if c == '*' {
        Token::Asterisk
    } else if c == '/' {
        Token::Slash
    } else if c == '^' {
        Token::Exponent
    } else if c == '(' {
        Token::OpenParen
    } else if c == ')' {
        Token::CloseParen
    } else {
        Token::Error
    }
}

/// Splits `input` into tokens (see `lex_spec`).
pub fn lex(input: &str) -> (r: Vec<Token>)
    ensures
        tokens_view(r@) == lex_spec(input@),
{
    let n = input.unicode_len();
    let mut toks: Vec<Token> = Vec::new();
    let mut i: usize = 0;
    while i < n
        invariant
            n == input@.len(),
            i <= n,
            lex_spec(input@) == tokens_view(toks@) + lex_from(input@, i as int),
        decreases n - i,
    {
        let ghost s = input@;
        let ghost before = toks@;
        let c = input.get_char(i);
        if is_space_char(c) {
            i = i + 1;
        } else if is_numeric_char(c) {
            let j = scan_numeric(input, n, i + 1);
            proof {
                lemma_numeric_end(s, i + 1);
            }
            let text = input.substring_char(i, j);
            let t = match Num::parse_decimal(text) {
                Some(v) => Token::Number(v),
                None => Token::Error,
            };
            toks.push(t);
            proof {
                assert(tokens_view(toks@) =~= tokens_view(before) + seq![t@]);
            }
            i = j;
        } else if is_alpha_char(c) {
            let j = scan_alpha(input, n, i + 1);
            proof {
                lemma_alpha_end(s, i + 1);
            }
            let text = input.substring_char(i, j);
            let t = Token::Identifier(String::from_str(text));
            toks.push(t);
            proof {
                assert(tokens_view(toks@) =~= tokens_view(before) + seq![t@]);
            }
            i = j;
        } else if c == '*' && i + 1 < n && input.get_char(i + 1) == '*' {
            toks.push(Token::Exponent);
            proof {
                assert(tokens_view(toks@) =~= tokens_view(before) + seq![Tok::Exponent]);
            }
            i = i + 2;
        } else {
            let t = symbol(c);
            toks.push(t);
            proof {
                assert(tokens_view(toks@) =~= tokens_view(before) + seq![t@]);
            }
            i = i + 1;
        }
    }
    toks
}

} // verus!
