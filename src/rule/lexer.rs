//! Lexer for rules in string format.

use vstd::prelude::*;
use vstd::string::StrSliceExecFns;
use crate::lexer::{is_space, is_space_char, lemma_numeric_end, numeric_end, scan_numeric, is_numeric_char};
use crate::num::{decimal_value, digits_value, dot_count, is_numeric, Num};

verus! {

/// A token of rule text: the tokens of expressions without names, plus
/// the three wildcards `_<id>`, `_lit<id>` and `_nonlit<id>`.
#[derive(Debug, Clone, Copy, PartialEq, Eq, Structural)]
pub enum RuleToken {
    Literal(Num),
    AnySubExpr(i32),
    AnyLiteral(i32),
    AnyNonLiteral(i32),
    Plus,
    Minus,
    Asterisk,
    Slash,
    Exponent,
    OpenParen,
    CloseParen,
    /// A character that starts no token, or a numeral without a value;
    /// also what the parser reads past the last token.
    Error,
}

/// The mathematical view of a `RuleToken`.
pub enum RuleTok {
    Literal((int, int)),
    AnySubExpr(int),
    AnyLiteral(int),
    AnyNonLiteral(int),
    Plus,
    Minus,
    Asterisk,
    Slash,
    Exponent,
    OpenParen,
    CloseParen,
    Error,
}

impl View for RuleToken {
    type V = RuleTok;

    open spec fn view(&self) -> RuleTok {
        match self {
            RuleToken::Literal(n) => RuleTok::Literal(n@),
            RuleToken::AnySubExpr(id) => RuleTok::AnySubExpr(*id as int),
            RuleToken::AnyLiteral(id) => RuleTok::AnyLiteral(*id as int),
            RuleToken::AnyNonLiteral(id) => RuleTok::AnyNonLiteral(*id as int),
            RuleToken::Plus => RuleTok::Plus,
            RuleToken::Minus => RuleTok::Minus,
            RuleToken::Asterisk => RuleTok::Asterisk,
            RuleToken::Slash => RuleTok::Slash,
            RuleToken::Exponent => RuleTok::Exponent,
            RuleToken::OpenParen => RuleTok::OpenParen,
            RuleToken::CloseParen => RuleTok::CloseParen,
            RuleToken::Error => RuleTok::Error,
        }
    }
}

pub open spec fn rule_tokens_view(v: Seq<RuleToken>) -> Seq<RuleTok> {
    v.map_values(|t: RuleToken| t@)
}

pub open spec fn rule_infix_bp(t: RuleTok) -> (int, int) {
    match t {
        RuleTok::Plus | RuleTok::Minus => (1, 2),
        RuleTok::Asterisk | RuleTok::Slash => (3, 4),
        RuleTok::Exponent => (6, 5),
        _ => (-1, -1),
    }
}

pub open spec fn rule_prefix_bp(t: RuleTok) -> int {
    match t {
        RuleTok::Plus | RuleTok::Minus => 8,
        _ => -1,
    }
}

impl RuleToken {
    /// Returns the binding power for the binary (infix) operator or `(-1, -1)` if not a valid operator.
    pub fn get_infix_bp(&self) -> (r: (i32, i32))
        ensures
            (r.0 as int, r.1 as int) == rule_infix_bp(self@),
    {
        match self {
            RuleToken::Plus | RuleToken::Minus => (1, 2),
            RuleToken::Asterisk | RuleToken::Slash => (3, 4),
            RuleToken::Exponent => (6, 5),
            _ => (-1, -1),
        }
    }

    /// Returns the binding power for the prefix operator or `((), -1)` if not a valid operator.
    pub fn get_prefix_bp(&self) -> (r: ((), i32))
        ensures
            r.1 as int == rule_prefix_bp(self@),
    {
        match self {
            RuleToken::Plus | RuleToken::Minus => ((), 8),
            _ => ((), -1),
        }
    }
}

/// The id written by a run of numeral characters: digits only, at most
/// `i32::MAX`.
pub open spec fn id_value(s: Seq<char>) -> Option<int> {
    if s.len() > 0 && dot_count(s) == 0 && (forall|i: int| 0 <= i < s.len() ==> is_numeric(#[trigger] s[i]))
        && digits_value(s) <= i32::MAX {
        Some(digits_value(s))
    } else {
        None
    }
}

pub open spec fn rule_symbol_token(c: char) -> RuleTok {
    if c == '+' {
        RuleTok::Plus
    } else if c == '-' {
        RuleTok::Minus
    } else if c == '*' {
        RuleTok::Asterisk
    } else if c == '/' {
        RuleTok::Slash
    } else if c == '^' {
        RuleTok::Exponent
    } else if c == '(' {
        RuleTok::OpenParen
    } else if c == ')' {
        RuleTok::CloseParen
    } else {
        RuleTok::Error
    }
}

/// Whether `s` holds the characters of `w` from position `i` on.
pub open spec fn has_at(s: Seq<char>, i: int, w: Seq<char>) -> bool {
    0 <= i && i + w.len() <= s.len() && s.subrange(i, i + w.len()) == w
}

/// The kind of wildcard that starts at `i` (0 for `_`, 1 for `_lit`, 2 for
/// `_nonlit`) with the position where its id starts; none where no id
/// digits follow.
pub open spec fn wildcard_at(s: Seq<char>, i: int) -> Option<(int, int)> {
    if has_at(s, i, seq!['_', 'l', 'i', 't']) && i + 4 < s.len() && is_numeric(s[i + 4]) {
        Some((1, i + 4))
    } else if has_at(s, i, seq!['_', 'n', 'o', 'n', 'l', 'i', 't']) && i + 7 < s.len() && is_numeric(
        s[i + 7],
    ) {
        Some((2, i + 7))
    } else if 0 <= i && i + 1 < s.len() && s[i] == '_' && is_numeric(s[i + 1]) {
        Some((0, i + 1))
    } else {
        None
    }
}

pub open spec fn wildcard_token(kind: int, id: Option<int>) -> RuleTok {
    match id {
        None => RuleTok::Error,
        Some(v) => if kind == 1 {
            RuleTok::AnyLiteral(v)
        } else if kind == 2 {
            RuleTok::AnyNonLiteral(v)
        } else {
            RuleTok::AnySubExpr(v)
        },
    }
}

pub open spec fn literal_token(s: Seq<char>) -> RuleTok {
    match decimal_value(s) {
        Some(v) => RuleTok::Literal(v),
        None => RuleTok::Error,
    }
}

/// The rule tokens of `s` from position `i` on. As for expressions, but
/// letters start no token, and `_`, `_lit` or `_nonlit` followed by a run
/// of numeral characters is a wildcard whose id that run spells.
pub open spec fn rule_lex_from(s: Seq<char>, i: int) -> Seq<RuleTok>
    decreases s.len() - i,
{
    if i < 0 || i >= s.len() {
        seq![]
    } else if is_space(s[i]) {
        rule_lex_from(s, i + 1)
    } else if is_numeric(s[i]) {
        let j = numeric_end(s, i + 1);
        proof {
            lemma_numeric_end(s, i + 1);
        }
        seq![literal_token(s.subrange(i, j))] + rule_lex_from(s, j)
    } else if wildcard_at(s, i) is Some {
        let w = wildcard_at(s, i)->0;
        let j = numeric_end(s, w.1);
        proof {
            lemma_numeric_end(s, w.1);
        }
        seq![wildcard_token(w.0, id_value(s.subrange(w.1, j)))] + rule_lex_from(s, j)
    } else if s[i] == '*' && i + 1 < s.len() && s[i + 1] == '*' {
        seq![RuleTok::Exponent] + rule_lex_from(s, i + 2)
    } else {
        seq![rule_symbol_token(s[i])] + rule_lex_from(s, i + 1)
    }
}

pub open spec fn rule_lex_spec(s: Seq<char>) -> Seq<RuleTok> {
    rule_lex_from(s, 0)
}

fn rule_symbol(c: char) -> (r: RuleToken)
    ensures
        r@ == rule_symbol_token(c),
{
    if c == '+' {
        RuleToken::Plus
    } else if c == '-' {
        RuleToken::Minus
    } else if c == '*' {
        RuleToken::Asterisk
    } else if c == '/' {
        RuleToken::Slash
    } else if c == '^' {
        RuleToken::Exponent
    } else if c == '(' {
        RuleToken::OpenParen
    } else if c == ')' {
        RuleToken::CloseParen
    } else {
        RuleToken::Error
    }
}

/// Whether `s` holds the characters of `w` from position `i` on.
fn has_word_at(s: &str, n: usize, i: usize, w: &str) -> (r: bool)
    requires
        n == s@.len(),
        i <= n,
    ensures
        r == has_at(s@, i as int, w@),
{
    let m = w.unicode_len();
    if m > n - i {
        return false;
    }
    let mut k: usize = 0;
    while k < m
        invariant
            m == w@.len(),
            n == s@.len(),
            i + m <= n,
            k <= m,
            forall|j: int| 0 <= j < k ==> s@[i + j] == w@[j],
        decreases m - k,
    {
        if s.get_char(i + k) != w.get_char(k) {
            proof {
                assert(s@.subrange(i as int, i + m)[k as int] != w@[k as int]);
            }
            return false;
        }
        k = k + 1;
    }
    proof {
        assert(s@.subrange(i as int, i + m) =~= w@);
    }
    true
}

/// The kind and id start of a wildcard at `i` (see `wildcard_at`).
fn scan_wildcard(s: &str, n: usize, i: usize) -> (r: Option<(u8, usize)>)
    requires
        n == s@.len(),
        i < n,
    ensures
        match r {
            Some(w) => wildcard_at(s@, i as int) == Some((w.0 as int, w.1 as int)),
            None => wildcard_at(s@, i as int) is None,
        },
{
    proof {
        reveal_strlit("_lit");
        reveal_strlit("_nonlit");
        assert("_lit"@ =~= seq!['_', 'l', 'i', 't']);
        assert("_nonlit"@ =~= seq!['_', 'n', 'o', 'n', 'l', 'i', 't']);
    }
    if has_word_at(s, n, i, "_lit") && i + 4 < n && is_numeric_char(s.get_char(i + 4)) {
        Some((1, i + 4))
    } else if has_word_at(s, n, i, "_nonlit") && i + 7 < n && is_numeric_char(s.get_char(i + 7)) {
        Some((2, i + 7))
    } else if i + 1 < n && s.get_char(i) == '_' && is_numeric_char(s.get_char(i + 1)) {
        Some((0, i + 1))
    } else {
        None
    }
}

/// Reads a wildcard id (see `id_value`).
fn parse_id(s: &str) -> (r: Option<i32>)
    ensures
        match r {
            Some(v) => id_value(s@) == Some(v as int),
            None => id_value(s@) is None,
        },
{
    let n = s.unicode_len();
    let mut i: usize = 0;
    let mut val: i32 = 0;
    while i < n
        invariant
            n == s@.len(),
            i <= n,
            0 <= val,
            forall|j: int| 0 <= j < i ==> '0' <= #[trigger] s@[j] <= '9',
            val as int == digits_value(s@.take(i as int)),
            dot_count(s@.take(i as int)) == 0,
        decreases n - i,
    {
        let c = s.get_char(i);
        let ghost pre = s@.take(i as int);
        assert(s@.take(i + 1).drop_last() =~= pre);
        if !('0' <= c && c <= '9') {
            proof {
                if c == '.' {
                    assert(s@.take(i + 1).last() == '.');
                    assert(dot_count(s@.take(i + 1)) > 0);
                    lemma_dot_count_prefix(s@, i + 1);
                } else {
                    assert(!is_numeric(s@[i as int]));
                }
            }
            return None;
        }
        let d = (c as u32 - '0' as u32) as i32;
        if val > (i32::MAX - d) / 10 {
            proof {
                assert(digits_value(s@.take(i + 1)) > i32::MAX);
                lemma_digits_prefix(s@, i + 1);
            }
            return None;
        }
        assert(0 <= val * 10 + d <= i32::MAX) by (nonlinear_arith)
            requires
                0 <= val <= (i32::MAX - d) / 10,
                0 <= d <= 9,
        ;
        val = val * 10 + d;
        i = i + 1;
    }
    assert(s@.take(n as int) =~= s@);
    if n == 0 {
        None
    } else {
        Some(val)
    }
}

proof fn lemma_dot_count_prefix(s: Seq<char>, i: int)
    requires
        0 <= i <= s.len(),
    ensures
        dot_count(s.take(i)) <= dot_count(s),
    decreases s.len() - i,
{
    if i < s.len() {
        lemma_dot_count_prefix(s, i + 1);
        assert(s.take(i + 1).drop_last() =~= s.take(i));
    } else {
        assert(s.take(i) =~= s);
    }
}

/// For a run of digits, a longer prefix spells no smaller number.
proof fn lemma_digits_prefix(s: Seq<char>, i: int)
    requires
        0 <= i <= s.len(),
        forall|j: int| 0 <= j < i ==> '0' <= #[trigger] s[j] <= '9',
    ensures
        (forall|j: int| 0 <= j < s.len() ==> is_numeric(#[trigger] s[j])) && dot_count(s) == 0
            ==> digits_value(s.take(i)) <= digits_value(s),
    decreases s.len() - i,
{
    if i < s.len() {
        if (forall|j: int| 0 <= j < s.len() ==> is_numeric(#[trigger] s[j])) && dot_count(s) == 0 {
            lemma_dot_count_prefix(s, i + 1);
            let t = s.take(i + 1);
            assert(t.drop_last() =~= s.take(i));
            assert(t.last() == s[i]);
            assert(dot_count(t) == 0);
            assert(t.last() != '.');
            lemma_digits_nonneg(s.take(i));
            assert(digits_value(t) >= digits_value(s.take(i)));
            assert forall|j: int| 0 <= j < i + 1 implies '0' <= #[trigger] s[j] <= '9' by {
                if j == i {
                    assert(is_numeric(s[j]));
                }
            }
            lemma_digits_prefix(s, i + 1);
        }
    } else {
        assert(s.take(i) =~= s);
    }
}

proof fn lemma_digits_nonneg(s: Seq<char>)
    requires
        forall|j: int| 0 <= j < s.len() ==> '0' <= #[trigger] s[j] <= '9',
    ensures
        digits_value(s) >= 0,
    decreases s.len(),
{
    if s.len() > 0 {
        lemma_digits_nonneg(s.drop_last());
    }
}

/// Splits rule text into tokens (see `rule_lex_spec`).
pub fn rule_lex(input: &str) -> (r: Vec<RuleToken>)
    ensures
        rule_tokens_view(r@) == rule_lex_spec(input@),
{
    let n = input.unicode_len();
    let mut toks: Vec<RuleToken> = Vec::new();
    let mut i: usize = 0;
    while i < n
        invariant
            n == input@.len(),
            i <= n,
            rule_lex_spec(input@) == rule_tokens_view(toks@) + rule_lex_from(input@, i as int),
        decreases n - i,
    {
        let ghost s = input@;
        let ghost before = toks@;
        let c = input.get_char(i);
        if is_space_char(c) {
            i = i + 1;
        } else if is_numeric_char(c) {
            let j = scan_numeric(input, n, i + 1);
            proof {
                lemma_numeric_end(s, i + 1);
            }
            let t = match Num::parse_decimal(input.substring_char(i, j)) {
                Some(v) => RuleToken::Literal(v),
                None => RuleToken::Error,
            };
            toks.push(t);
            proof {
                assert(rule_tokens_view(toks@) =~= rule_tokens_view(before) + seq![t@]);
            }
            i = j;
        } else {
            match scan_wildcard(input, n, i) {
                Some(w) => {
                    proof {
                        assert(i < w.1 <= n);
                        lemma_numeric_end(s, w.1 as int);
                    }
                    let j = scan_numeric(input, n, w.1);
                    let t = match parse_id(input.substring_char(w.1, j)) {
                        None => RuleToken::Error,
                        Some(v) => if w.0 == 1 {
                            RuleToken::AnyLiteral(v)
                        } else if w.0 == 2 {
                            RuleToken::AnyNonLiteral(v)
                        } else {
                            RuleToken::AnySubExpr(v)
                        },
                    };
                    toks.push(t);
                    proof {
                        assert(rule_tokens_view(toks@) =~= rule_tokens_view(before) + seq![t@]);
                    }
                    i = j;
                },
                None => {
                    if c == '*' && i + 1 < n && input.get_char(i + 1) == '*' {
                        toks.push(RuleToken::Exponent);
                        proof {
                            assert(rule_tokens_view(toks@) =~= rule_tokens_view(before) + seq![
                                RuleTok::Exponent,
                            ]);
                        }
                        i = i + 2;
                    } else {
                        let t = rule_symbol(c);
                        toks.push(t);
                        proof {
                            assert(rule_tokens_view(toks@) =~= rule_tokens_view(before) + seq![t@]);
                        }
                        i = i + 1;
                    }
                },
            }
        }
    }
    toks
}

} // verus!
