//! Reading printed expressions back: the canonical text of a tree, lexed
//! and parsed, gives the tree again.

use vstd::prelude::*;
use crate::lexer::{alpha_end, infix_bp, is_alpha, lex_from, lex_spec, numeric_end, prefix_bp, symbol_token, Tok};
use crate::num::{abs, decimal_text, decimal_value, finite_expansion, ipow, is_numeric, normalize, num_text};
use crate::numeral::{lemma_decimal_round_trip, lemma_numeric_value_nonneg};
use crate::lexer::{is_space, lemma_alpha_end, lemma_numeric_end, number_token};
use crate::parser::{
    apply_prefix, bin_op_of, bin_op_text, parse_atom, parse_bp, parse_infix, parse_tokens, term_text, tok_at, BinOpKind,
    Step, Term, UnaryOpKind,
};

verus! {

pub open spec fn op_token(op: BinOpKind) -> Tok {
    match op {
        BinOpKind::Plus => Tok::Plus,
        BinOpKind::Minus => Tok::Minus,
        BinOpKind::Asterisk => Tok::Asterisk,
        BinOpKind::Slash => Tok::Slash,
        BinOpKind::Exponent => Tok::Exponent,
    }
}

/// The tokens of the canonical text of a term (see `term_text`): a
/// negative literal is a parenthesised negation of its magnitude.
pub open spec fn term_tokens(t: Term) -> Seq<Tok>
    decreases t,
{
    match t {
        Term::Literal(v) => if v.0 < 0 {
            seq![Tok::OpenParen, Tok::Minus, Tok::Number((-v.0, v.1)), Tok::CloseParen]
        } else {
            seq![Tok::Number(v)]
        },
        Term::Identifier(s) => seq![Tok::Identifier(s)],
        Term::Binary(l, op, r) => seq![Tok::OpenParen] + term_tokens(*l) + seq![op_token(op)] + term_tokens(*r)
            + seq![Tok::CloseParen],
        Term::Unary(op, r) => seq![Tok::OpenParen, if op == UnaryOpKind::Minus {
            Tok::Minus
        } else {
            Tok::Plus
        }] + term_tokens(*r) + seq![Tok::CloseParen],
        Term::Error => seq![Tok::Error],
    }
}

/// A term whose canonical text reads back as itself: no error node, no
/// unary `+`, no negation of a literal (the parser folds those).
pub open spec fn printable(t: Term) -> bool
    decreases t,
{
    match t {
        Term::Binary(l, _, r) => printable(*l) && printable(*r),
        Term::Unary(op, r) => op == UnaryOpKind::Minus && !(*r is Literal) && printable(*r),
        Term::Error => false,
        _ => true,
    }
}

proof fn lemma_first_token(t: Term)
    requires
        printable(t),
    ensures
        term_tokens(t).len() >= 1,
        prefix_bp(term_tokens(t)[0]) == -1,
    decreases t,
{
}

proof fn lemma_parse_printed(t: Term, ts: Seq<Tok>, p: int)
    requires
        printable(t),
        0 <= p,
        p + term_tokens(t).len() <= ts.len(),
        ts.subrange(p, p + term_tokens(t).len()) == term_tokens(t),
    ensures
        parse_atom(ts, p) == (t, p + term_tokens(t).len(), Seq::<Seq<char>>::empty()),
        infix_bp(tok_at(ts, p + term_tokens(t).len())).0 < 0 ==> forall|min: int|
            0 <= min ==> #[trigger] parse_bp(ts, p, min) == (t, p + term_tokens(t).len(), Seq::<
                Seq<char>,
            >::empty()),
    decreases t,
{
    let tt = term_tokens(t);
    let end = p + tt.len();
    let none = Seq::<Seq<char>>::empty();
    assert(none + none =~= none);
    assert forall|i: int| 0 <= i < tt.len() implies ts[p + i] == tt[i] by {
        assert(ts.subrange(p, end)[i] == ts[p + i]);
    }
    match t {
        Term::Literal(v) => {
            if v.0 < 0 {
                let w = (-v.0, v.1);
                assert(parse_atom(ts, p + 2) == (Term::Literal(w), p + 3, none));
                assert(parse_infix(ts, Term::Literal(w), p + 3, 8) == (Term::Literal(w), p + 3, none));
                assert(parse_bp(ts, p + 2, 8) == (Term::Literal(w), p + 3, none));
                assert(apply_prefix(Tok::Minus, Term::Literal(w)) == t);
                assert(parse_infix(ts, t, p + 3, 0) == (t, p + 3, none));
                assert(parse_bp(ts, p + 1, 0) == (t, p + 3, none));
            }
        },
        Term::Identifier(_) => {},
        Term::Binary(l, op, r) => {
            let tl = term_tokens(*l);
            let tr = term_tokens(*r);
            let after_left = p + 1 + tl.len();
            let after_right = after_left + 1 + tr.len();
            assert(tt =~= seq![Tok::OpenParen] + tl + seq![op_token(op)] + tr + seq![Tok::CloseParen]);
            assert(ts.subrange(p + 1, after_left) =~= tl) by {
                assert forall|i: int| 0 <= i < tl.len() implies ts.subrange(p + 1, after_left)[i] == tl[i] by {
                    assert(tt[1 + i] == tl[i]);
                }
            }
            assert(ts.subrange(after_left + 1, after_right) =~= tr) by {
                assert forall|i: int| 0 <= i < tr.len() implies ts.subrange(after_left + 1, after_right)[i] == tr[i] by {
                    assert(tt[tl.len() as int + 2 + i] == tr[i]);
                }
            }
            assert(ts[after_left] == op_token(op)) by {
                assert(tt[1 + tl.len() as int] == op_token(op));
            }
            assert(ts[after_right] == Tok::CloseParen) by {
                assert(tt[tt.len() - 1] == Tok::CloseParen);
            }
            lemma_first_token(*l);
            lemma_parse_printed(*l, ts, p + 1);
            lemma_parse_printed(*r, ts, after_left + 1);
            let bp = infix_bp(op_token(op));
            assert(bp.1 >= 0);
            assert(parse_bp(ts, after_left + 1, bp.1) == (*r, after_right, none));
            assert(bin_op_of(op_token(op)) == op);
            assert(parse_infix(ts, t, after_right, 0) == (t, after_right, none));
            assert(parse_infix(ts, *l, after_left, 0) == (t, after_right, none));
            assert(parse_atom(ts, p + 1) == (*l, after_left, none));
            assert(parse_bp(ts, p + 1, 0) == (t, after_right, none));
        },
        Term::Unary(op, r) => {
            let tr = term_tokens(*r);
            let after_right = p + 2 + tr.len();
            assert(tt =~= seq![Tok::OpenParen, Tok::Minus] + tr + seq![Tok::CloseParen]);
            assert(ts.subrange(p + 2, after_right) =~= tr) by {
                assert forall|i: int| 0 <= i < tr.len() implies ts.subrange(p + 2, after_right)[i] == tr[i] by {
                    assert(tt[2 + i] == tr[i]);
                }
            }
            assert(ts[after_right] == Tok::CloseParen) by {
                assert(tt[tt.len() - 1] == Tok::CloseParen);
            }
            assert(tt[1] == Tok::Minus);
            assert(ts[p + 1] == Tok::Minus);
            lemma_parse_printed(*r, ts, p + 2);
            assert(parse_bp(ts, p + 2, 8) == (*r, after_right, none));
            assert(apply_prefix(Tok::Minus, *r) == t);
            assert(parse_infix(ts, t, after_right, 0) == (t, after_right, none));
            assert(parse_bp(ts, p + 1, 0) == (t, after_right, none));
        },
        Term::Error => {},
    }
    lemma_first_token(t);
    assert forall|min: int| 0 <= min && infix_bp(tok_at(ts, end)).0 < 0 implies #[trigger] parse_bp(
        ts,
        p,
        min,
    ) == (t, end, none) by {
        assert(tok_at(ts, p) == tt[0]);
        assert(parse_atom(ts, p) == (t, end, none));
        assert(parse_infix(ts, t, end, min) == (t, end, none));
    }
}

/// Parsing the tokens of a printable term's canonical text gives the term
/// back, with no diagnostics.
pub proof fn parse_printed_tokens(t: Term)
    requires
        printable(t),
    ensures
        parse_tokens(term_tokens(t)) == (t, Seq::<Seq<char>>::empty()),
{
    let ts = term_tokens(t);
    assert(ts.subrange(0, ts.len() as int) =~= ts);
    lemma_parse_printed(t, ts, 0);
    assert(parse_bp(ts, 0, 0) == (t, ts.len() as int, Seq::<Seq<char>>::empty()));
}

/// No unary `+` and no negated literal: what the parser's folding leaves.
pub open spec fn folded(t: Term) -> bool
    decreases t,
{
    match t {
        Term::Binary(l, _, r) => folded(*l) && folded(*r),
        Term::Unary(op, r) => op == UnaryOpKind::Minus && !(*r is Literal) && folded(*r),
        _ => true,
    }
}

pub open spec fn has_error(t: Term) -> bool
    decreases t,
{
    match t {
        Term::Binary(l, _, r) => has_error(*l) || has_error(*r),
        Term::Unary(_, r) => has_error(*r),
        Term::Error => true,
        _ => false,
    }
}

proof fn lemma_printable(t: Term)
    ensures
        printable(t) == (folded(t) && !has_error(t)),
    decreases t,
{
    match t {
        Term::Binary(l, _, r) => {
            lemma_printable(*l);
            lemma_printable(*r);
        },
        Term::Unary(_, r) => {
            lemma_printable(*r);
        },
        _ => {},
    }
}

proof fn lemma_bp_folded(ts: Seq<Tok>, p: int, min_bp: int)
    ensures
        folded(parse_bp(ts, p, min_bp).0),
    decreases ts.len() - p, 2int,
{
    let t = tok_at(ts, p);
    if 0 <= p <= ts.len() {
        if prefix_bp(t) == -1 {
            lemma_atom_folded(ts, p);
        } else {
            lemma_bp_folded(ts, p + 1, prefix_bp(t));
        }
        let head: Step = if prefix_bp(t) == -1 {
            parse_atom(ts, p)
        } else {
            let r = parse_bp(ts, p + 1, prefix_bp(t));
            (apply_prefix(t, r.0), r.1, r.2)
        };
        if !(head.1 < p || head.1 > ts.len()) {
            lemma_infix_folded(ts, head.0, head.1, min_bp);
        }
    }
}

proof fn lemma_infix_folded(ts: Seq<Tok>, left: Term, p: int, min_bp: int)
    requires
        folded(left),
    ensures
        folded(parse_infix(ts, left, p, min_bp).0),
    decreases ts.len() - p, 0int,
{
    let t = tok_at(ts, p);
    let bp = infix_bp(t);
    if !(bp.0 < min_bp || p < 0 || p >= ts.len()) {
        lemma_bp_folded(ts, p + 1, bp.1);
        let r = parse_bp(ts, p + 1, bp.1);
        let node = Term::Binary(Box::new(left), bin_op_of(t), Box::new(r.0));
        if !(r.1 <= p || r.1 > ts.len()) {
            lemma_infix_folded(ts, node, r.1, min_bp);
        }
    }
}

proof fn lemma_atom_folded(ts: Seq<Tok>, p: int)
    ensures
        folded(parse_atom(ts, p).0),
    decreases ts.len() - p, 1int,
{
    if 0 <= p <= ts.len() {
        if tok_at(ts, p) is OpenParen {
            lemma_bp_folded(ts, p + 1, 0);
        }
    }
}

/// Every tree the parser gives is folded: no unary `+`, no negated literal.
pub proof fn parse_output_folded(ts: Seq<Tok>)
    ensures
        folded(parse_tokens(ts).0),
{
    lemma_bp_folded(ts, 0, 0);
}

/// A parser output without error nodes reads back from the tokens of its
/// canonical text as itself, with no diagnostics.
pub proof fn parse_output_round_trip(ts: Seq<Tok>)
    requires
        !has_error(parse_tokens(ts).0),
    ensures
        parse_tokens(term_tokens(parse_tokens(ts).0)) == (parse_tokens(ts).0, Seq::<Seq<char>>::empty()),
{
    let t = parse_tokens(ts).0;
    parse_output_folded(ts);
    lemma_printable(t);
    parse_printed_tokens(t);
}

/// A value that a decimal numeral spells: `n / 10^k` in lowest terms.
pub open spec fn decimal_born(v: (int, int)) -> bool {
    exists|n: int, k: nat| 0 <= n <= i64::MAX && k <= 18 && #[trigger] normalize(n, ipow(10, k)) == v
}

/// A term whose text the lexer reads back token by token: literals that
/// decimal numerals spell, up to sign, and names made of letters.
pub open spec fn lexable(t: Term) -> bool
    decreases t,
{
    match t {
        Term::Literal(v) => decimal_born((abs(v.0) as int, v.1)),
        Term::Identifier(s) => s.len() > 0 && forall|i: int| 0 <= i < s.len() ==> is_alpha(#[trigger] s[i]),
        Term::Binary(l, _, r) => lexable(*l) && lexable(*r),
        Term::Unary(_, r) => lexable(*r),
        Term::Error => true,
    }
}

/// Position `j` of `s` is where a token of the canonical text may end.
pub open spec fn ends_token(s: Seq<char>, j: int) -> bool {
    j == s.len() || s[j] == ' ' || s[j] == ')'
}

proof fn lemma_numeric_run(s: Seq<char>, i: int, j: int)
    requires
        0 <= i <= j <= s.len(),
        forall|k: int| i <= k < j ==> is_numeric(#[trigger] s[k]),
        ends_token(s, j),
    ensures
        numeric_end(s, i) == j,
    decreases j - i,
{
    if i < j {
        lemma_numeric_run(s, i + 1, j);
    }
}

proof fn lemma_alpha_run(s: Seq<char>, i: int, j: int)
    requires
        0 <= i <= j <= s.len(),
        forall|k: int| i <= k < j ==> is_alpha(#[trigger] s[k]),
        ends_token(s, j),
    ensures
        alpha_end(s, i) == j,
    decreases j - i,
{
    if i < j {
        lemma_alpha_run(s, i + 1, j);
    }
}

/// Lexing the text of a decimal value where it stands in `s`.
proof fn lemma_lex_numeral(s: Seq<char>, i: int, v: (int, int))
    requires
        decimal_born(v),
        0 <= i,
        i + num_text(v).len() <= s.len(),
        s.subrange(i, i + num_text(v).len()) == num_text(v),
        ends_token(s, i + num_text(v).len()),
    ensures
        v.0 >= 0,
        num_text(v) == decimal_text(v.0 as nat, v.1 as nat),
        lex_from(s, i) == seq![Tok::Number(v)] + lex_from(s, i + num_text(v).len()),
{
    let (n, k) = choose|n: int, k: nat| 0 <= n <= i64::MAX && k <= 18 && #[trigger] normalize(n, ipow(10, k)) == v;
    lemma_decimal_round_trip(n, k);
    let w = num_text(v);
    assert(w == decimal_text(v.0 as nat, v.1 as nat));
    let j = i + w.len();
    assert(w.len() >= 1) by {
        if w.len() == 0 {
            assert(crate::num::dot_count(w) == 0);
        }
    }
    assert forall|x: int| i <= x < j implies is_numeric(#[trigger] s[x]) by {
        assert(s.subrange(i, j)[x - i] == s[x]);
    }
    lemma_numeric_run(s, i + 1, j);
}

proof fn lemma_text_chars(w: Seq<char>, s: Seq<char>, i: int)
    requires
        0 <= i,
        i + w.len() <= s.len(),
        s.subrange(i, i + w.len()) == w,
    ensures
        forall|k: int| 0 <= k < w.len() ==> s[i + k] == #[trigger] w[k],
{
    assert forall|k: int| 0 <= k < w.len() implies s[i + k] == #[trigger] w[k] by {
        assert(s.subrange(i, i + w.len())[k] == s[i + k]);
    }
}

proof fn lemma_sub_text(w: Seq<char>, s: Seq<char>, i: int, off: int, part: Seq<char>)
    requires
        0 <= i,
        0 <= off,
        off + part.len() <= w.len(),
        i + w.len() <= s.len(),
        s.subrange(i, i + w.len()) == w,
        w.subrange(off, off + part.len()) == part,
    ensures
        s.subrange(i + off, i + off + part.len()) == part,
{
    lemma_text_chars(w, s, i);
    assert forall|k: int| 0 <= k < part.len() implies s.subrange(i + off, i + off + part.len())[k] == part[k] by {
        assert(w.subrange(off, off + part.len())[k] == w[off + k]);
    }
    assert(s.subrange(i + off, i + off + part.len()) =~= part);
}

proof fn lemma_lex_negative(v: (int, int), s: Seq<char>, i: int)
    requires
        v.0 < 0,
        lexable(Term::Literal(v)),
        0 <= i,
        i + term_text(Term::Literal(v)).len() <= s.len(),
        s.subrange(i, i + term_text(Term::Literal(v)).len()) == term_text(Term::Literal(v)),
        ends_token(s, i + term_text(Term::Literal(v)).len()),
    ensures
        lex_from(s, i) == term_tokens(Term::Literal(v)) + lex_from(s, i + term_text(Term::Literal(v)).len()),
{
    let t = Term::Literal(v);
    let w = term_text(t);
    let end = i + w.len();
    let m = -v.0;
    let u = (m, v.1);
    let (n, k) = choose|n: int, k: nat| 0 <= n <= i64::MAX && k <= 18 && #[trigger] normalize(n, ipow(10, k)) == u;
    lemma_decimal_round_trip(n, k);
    let d = num_text(u);
    assert(d == decimal_text(m as nat, v.1 as nat));
    assert(w =~= seq!['(', '-'] + d + seq![')']);
    lemma_text_chars(w, s, i);
    assert(w[0] == '(' && w[1] == '-' && w[w.len() - 1] == ')');
    assert(s[i] == '(' && s[i + 1] == '-' && s[end - 1] == ')');
    assert(w.subrange(2, 2 + d.len() as int) =~= d);
    lemma_sub_text(w, s, i, 2, d);
    assert(ends_token(s, i + 2 + d.len()));
    lemma_lex_numeral(s, i + 2, u);
    assert(lex_from(s, end - 1) == seq![Tok::CloseParen] + lex_from(s, end));
    assert(lex_from(s, i + 1) == seq![Tok::Minus] + lex_from(s, i + 2));
    assert(lex_from(s, i) == seq![Tok::OpenParen] + lex_from(s, i + 1));
    assert(lex_from(s, i) =~= term_tokens(t) + lex_from(s, end));
}

proof fn lemma_lex_binary(l: Term, op: BinOpKind, r: Term, s: Seq<char>, i: int)
    requires
        0 <= i,
        i + term_text(Term::Binary(Box::new(l), op, Box::new(r))).len() <= s.len(),
        s.subrange(i, i + term_text(Term::Binary(Box::new(l), op, Box::new(r))).len()) == term_text(
            Term::Binary(Box::new(l), op, Box::new(r)),
        ),
        ends_token(s, i + term_text(Term::Binary(Box::new(l), op, Box::new(r))).len()),
        lex_from(s, i + 1) == term_tokens(l) + lex_from(s, i + 1 + term_text(l).len()),
        lex_from(s, i + 4 + term_text(l).len()) == term_tokens(r) + lex_from(
            s,
            i + 4 + term_text(l).len() + term_text(r).len(),
        ),
    ensures
        lex_from(s, i) == term_tokens(Term::Binary(Box::new(l), op, Box::new(r))) + lex_from(
            s,
            i + term_text(Term::Binary(Box::new(l), op, Box::new(r))).len(),
        ),
{
    let t = Term::Binary(Box::new(l), op, Box::new(r));
    let w = term_text(t);
    let end = i + w.len();
    let wl = term_text(l);
    let wr = term_text(r);
    let a = i + 1 + wl.len();
    let b = a + 3 + wr.len();
    assert(w =~= seq!['('] + wl + seq![' '] + bin_op_text(op) + seq![' '] + wr + seq![')']);
    lemma_text_chars(w, s, i);
    assert(w[0] == '(');
    assert(w[1 + wl.len() as int] == ' ');
    assert(w[2 + wl.len() as int] == bin_op_text(op)[0]);
    assert(w[3 + wl.len() as int] == ' ');
    assert(w[w.len() - 1] == ')');
    assert(b + 1 == end);
    assert(symbol_token(bin_op_text(op)[0]) == op_token(op));
    assert(lex_from(s, b) == seq![Tok::CloseParen] + lex_from(s, end));
    assert(lex_from(s, a + 2) == lex_from(s, a + 3));
    assert(lex_from(s, a + 1) == seq![op_token(op)] + lex_from(s, a + 2));
    assert(lex_from(s, a) == lex_from(s, a + 1));
    assert(lex_from(s, i) == seq![Tok::OpenParen] + lex_from(s, i + 1));
    assert(lex_from(s, i) =~= term_tokens(t) + lex_from(s, end));
}

proof fn lemma_lex_unary(r: Term, s: Seq<char>, i: int)
    requires
        0 <= i,
        i + term_text(Term::Unary(UnaryOpKind::Minus, Box::new(r))).len() <= s.len(),
        s.subrange(i, i + term_text(Term::Unary(UnaryOpKind::Minus, Box::new(r))).len()) == term_text(
            Term::Unary(UnaryOpKind::Minus, Box::new(r)),
        ),
        ends_token(s, i + term_text(Term::Unary(UnaryOpKind::Minus, Box::new(r))).len()),
        lex_from(s, i + 2) == term_tokens(r) + lex_from(s, i + 2 + term_text(r).len()),
    ensures
        lex_from(s, i) == term_tokens(Term::Unary(UnaryOpKind::Minus, Box::new(r))) + lex_from(
            s,
            i + term_text(Term::Unary(UnaryOpKind::Minus, Box::new(r))).len(),
        ),
{
    let t = Term::Unary(UnaryOpKind::Minus, Box::new(r));
    let w = term_text(t);
    let end = i + w.len();
    let wr = term_text(r);
    let b = i + 2 + wr.len();
    assert(w =~= seq!['('] + seq!['-'] + wr + seq![')']);
    lemma_text_chars(w, s, i);
    assert(w[0] == '(' && w[1] == '-' && w[w.len() - 1] == ')');
    assert(lex_from(s, b) == seq![Tok::CloseParen] + lex_from(s, end));
    assert(lex_from(s, i + 1) == seq![Tok::Minus] + lex_from(s, i + 2));
    assert(lex_from(s, i) == seq![Tok::OpenParen] + lex_from(s, i + 1));
    assert(lex_from(s, i) =~= term_tokens(t) + lex_from(s, end));
}

proof fn lemma_lex_printed(t: Term, s: Seq<char>, i: int)
    requires
        printable(t),
        lexable(t),
        0 <= i,
        i + term_text(t).len() <= s.len(),
        s.subrange(i, i + term_text(t).len()) == term_text(t),
        ends_token(s, i + term_text(t).len()),
    ensures
        lex_from(s, i) == term_tokens(t) + lex_from(s, i + term_text(t).len()),
    decreases t,
{
    let w = term_text(t);
    let end = i + w.len();
    match t {
        Term::Literal(v) => {
            if v.0 >= 0 {
                lemma_lex_numeral(s, i, v);
            } else {
                lemma_lex_negative(v, s, i);
            }
        },
        Term::Identifier(name) => {
            lemma_text_chars(w, s, i);
            assert forall|k: int| i <= k < end implies is_alpha(#[trigger] s[k]) by {
                assert(s[i + (k - i)] == w[k - i]);
            }
            lemma_alpha_run(s, i + 1, end);
        },
        Term::Binary(l, op, r) => {
            let wl = term_text(*l);
            let wr = term_text(*r);
            let a = i + 1 + wl.len();
            let b = a + 3 + wr.len();
            assert(w =~= seq!['('] + wl + seq![' '] + bin_op_text(op) + seq![' '] + wr + seq![')']);
            assert(w.subrange(1, a - i) =~= wl);
            assert(w.subrange(a + 3 - i, b - i) =~= wr);
            lemma_sub_text(w, s, i, 1, wl);
            lemma_sub_text(w, s, i, a + 3 - i, wr);
            lemma_text_chars(w, s, i);
            assert(w[1 + wl.len() as int] == ' ');
            assert(w[w.len() - 1] == ')');
            lemma_lex_printed(*l, s, i + 1);
            lemma_lex_printed(*r, s, a + 3);
            lemma_lex_binary(*l, op, *r, s, i);
        },
        Term::Unary(op, r) => {
            let wr = term_text(*r);
            let b = i + 2 + wr.len();
            assert(w =~= seq!['('] + seq!['-'] + wr + seq![')']);
            assert(w.subrange(2, b - i) =~= wr);
            lemma_sub_text(w, s, i, 2, wr);
            lemma_text_chars(w, s, i);
            assert(w[w.len() - 1] == ')');
            lemma_lex_printed(*r, s, i + 2);
            lemma_lex_unary(*r, s, i);
        },
        Term::Error => {},
    }
}

/// The canonical text of a printable term whose literals decimal numerals
/// spell and whose names are letters reads back as the term, with no
/// diagnostics.
pub proof fn printed_text_round_trip(t: Term)
    requires
        printable(t),
        lexable(t),
    ensures
        lex_spec(term_text(t)) == term_tokens(t),
        parse_tokens(lex_spec(term_text(t))) == (t, Seq::<Seq<char>>::empty()),
{
    let w = term_text(t);
    assert(w.subrange(0, w.len() as int) =~= w);
    lemma_lex_printed(t, w, 0);
    assert(lex_from(w, w.len() as int) == Seq::<Tok>::empty());
    assert(term_tokens(t) + Seq::<Tok>::empty() =~= term_tokens(t));
    parse_printed_tokens(t);
}

/// A parser output without error nodes, whose literals decimal numerals
/// spell and whose names are letters, reads back from its canonical text
/// as itself.
proof fn parse_text_round_trip(input: Seq<char>)
    requires
        !has_error(parse_tokens(lex_spec(input)).0),
        lexable(parse_tokens(lex_spec(input)).0),
    ensures
        parse_tokens(lex_spec(term_text(parse_tokens(lex_spec(input)).0))) == (
            parse_tokens(lex_spec(input)).0,
            Seq::<Seq<char>>::empty(),
        ),
{
    let t = parse_tokens(lex_spec(input)).0;
    parse_output_folded(lex_spec(input));
    lemma_printable(t);
    printed_text_round_trip(t);
}


/// A token as the lexer makes it: a number that a decimal numeral spells,
/// a name of letters.
pub open spec fn good_token(t: Tok) -> bool {
    match t {
        Tok::Number(v) => decimal_born(v),
        Tok::Identifier(w) => w.len() > 0 && forall|i: int| 0 <= i < w.len() ==> is_alpha(#[trigger] w[i]),
        _ => true,
    }
}

pub open spec fn all_good(ts: Seq<Tok>) -> bool {
    forall|j: int| 0 <= j < ts.len() ==> good_token(#[trigger] ts[j])
}

proof fn lemma_all_good_concat(a: Seq<Tok>, b: Seq<Tok>)
    requires
        all_good(a),
        all_good(b),
    ensures
        all_good(a + b),
{
    assert forall|j: int| 0 <= j < (a + b).len() implies good_token(#[trigger] (a + b)[j]) by {
        if j < a.len() {
            assert((a + b)[j] == a[j]);
        } else {
            assert((a + b)[j] == b[j - a.len()]);
        }
    }
}

/// Every token the lexer makes is as the lexer makes it.
proof fn lemma_lex_good(s: Seq<char>, i: int)
    ensures
        all_good(lex_from(s, i)),
    decreases s.len() - i,
{
    if 0 <= i < s.len() {
        if is_space(s[i]) {
            lemma_lex_good(s, i + 1);
        } else if is_numeric(s[i]) {
            let j = numeric_end(s, i + 1);
            lemma_numeric_end(s, i + 1);
            lemma_lex_good(s, j);
            let w = s.subrange(i, j);
            if let Some(v) = decimal_value(w) {
                assert forall|x: int| 0 <= x < w.len() implies is_numeric(#[trigger] w[x]) by {
                    assert(w[x] == s[i + x]);
                }
                lemma_numeric_value_nonneg(w);
                assert(normalize(crate::num::digits_value(w), ipow(10, crate::num::frac_len(w))) == v);
            }
            assert(good_token(number_token(w)));
            lemma_all_good_concat(seq![number_token(w)], lex_from(s, j));
        } else if is_alpha(s[i]) {
            let j = alpha_end(s, i + 1);
            lemma_alpha_end(s, i + 1);
            lemma_lex_good(s, j);
            let w = s.subrange(i, j);
            assert forall|x: int| 0 <= x < w.len() implies is_alpha(#[trigger] w[x]) by {
                assert(w[x] == s[i + x]);
            }
            lemma_all_good_concat(seq![Tok::Identifier(w)], lex_from(s, j));
        } else if s[i] == '*' && i + 1 < s.len() && s[i + 1] == '*' {
            lemma_lex_good(s, i + 2);
            lemma_all_good_concat(seq![Tok::Exponent], lex_from(s, i + 2));
        } else {
            lemma_lex_good(s, i + 1);
            lemma_all_good_concat(seq![symbol_token(s[i])], lex_from(s, i + 1));
        }
    }
}

proof fn lemma_bp_lexable(ts: Seq<Tok>, p: int, min_bp: int)
    requires
        all_good(ts),
    ensures
        lexable(parse_bp(ts, p, min_bp).0),
    decreases ts.len() - p, 2int,
{
    let t = tok_at(ts, p);
    if 0 <= p <= ts.len() {
        if prefix_bp(t) == -1 {
            lemma_atom_lexable(ts, p);
        } else {
            lemma_bp_lexable(ts, p + 1, prefix_bp(t));
        }
        let head: Step = if prefix_bp(t) == -1 {
            parse_atom(ts, p)
        } else {
            let r = parse_bp(ts, p + 1, prefix_bp(t));
            (apply_prefix(t, r.0), r.1, r.2)
        };
        if prefix_bp(t) != -1 {
            let r = parse_bp(ts, p + 1, prefix_bp(t));
            if let Term::Literal(w) = r.0 {
                assert(abs(-w.0) == abs(w.0));
            }
        }
        if !(head.1 < p || head.1 > ts.len()) {
            lemma_infix_lexable(ts, head.0, head.1, min_bp);
        }
    }
}

proof fn lemma_infix_lexable(ts: Seq<Tok>, left: Term, p: int, min_bp: int)
    requires
        all_good(ts),
        lexable(left),
    ensures
        lexable(parse_infix(ts, left, p, min_bp).0),
    decreases ts.len() - p, 0int,
{
    let t = tok_at(ts, p);
    let bp = infix_bp(t);
    if !(bp.0 < min_bp || p < 0 || p >= ts.len()) {
        lemma_bp_lexable(ts, p + 1, bp.1);
        let r = parse_bp(ts, p + 1, bp.1);
        let node = Term::Binary(Box::new(left), bin_op_of(t), Box::new(r.0));
        if !(r.1 <= p || r.1 > ts.len()) {
            lemma_infix_lexable(ts, node, r.1, min_bp);
        }
    }
}

proof fn lemma_atom_lexable(ts: Seq<Tok>, p: int)
    requires
        all_good(ts),
    ensures
        lexable(parse_atom(ts, p).0),
    decreases ts.len() - p, 1int,
{
    if 0 <= p <= ts.len() {
        let t = tok_at(ts, p);
        if p < ts.len() {
            assert(good_token(ts[p]));
        }
        if let Tok::Number(v) = t {
            let (n, k) = choose|n: int, k: nat| 0 <= n <= i64::MAX && k <= 18 && #[trigger] normalize(n, ipow(10, k)) == v;
            lemma_decimal_round_trip(n, k);
            assert(abs(v.0) as int == v.0);
        }
        if t is OpenParen {
            lemma_bp_lexable(ts, p + 1, 0);
        }
    }
}

/// Parser round trip: the canonical text of what the parser makes of any
/// input, where that has no error node, reads back as the same tree, with
/// no diagnostics.
pub proof fn parse_round_trip(input: Seq<char>)
    requires
        !has_error(parse_tokens(lex_spec(input)).0),
    ensures
        parse_tokens(lex_spec(term_text(parse_tokens(lex_spec(input)).0))) == (
            parse_tokens(lex_spec(input)).0,
            Seq::<Seq<char>>::empty(),
        ),
{
    lemma_lex_good(input, 0);
    lemma_bp_lexable(lex_spec(input), 0, 0);
    parse_text_round_trip(input);
}

} // verus!
