//! Expression trees and the Pratt parser that builds them from tokens.

use vstd::prelude::*;
use vstd::string::StringExecFns;
use crate::lexer::{infix_bp, prefix_bp, tokens_view, Tok, Token};
use crate::num::{num_text, Num};

verus! {

#[derive(Debug, Copy, Clone, PartialEq, Eq, Structural)]
pub enum BinOpKind {
    Plus,
    Minus,
    Asterisk,
    Slash,
    Exponent,
}

#[derive(Debug, Copy, Clone, PartialEq, Eq, Structural)]
pub enum UnaryOpKind {
    Plus,
    Minus,
}

/// An expression tree. Children are owned by their parent.
#[derive(Debug)]
#[allow(inconsistent_fields)]
pub enum Expr {
    Literal(Num),
    Identifier(String),
    Binary { left: Box<Expr>, op: BinOpKind, right: Box<Expr> },
    Unary { op: UnaryOpKind, right: Box<Expr> },
    /// Stands where the parser met invalid syntax, or where a derivative
    /// has no rule.
    Error,
}

/// The mathematical view of an `Expr`.
pub enum Term {
    Literal((int, int)),
    Identifier(Seq<char>),
    Binary(Box<Term>, BinOpKind, Box<Term>),
    Unary(UnaryOpKind, Box<Term>),
    Error,
}

/// The term that an expression denotes.
pub open spec fn term_of(e: Expr) -> Term
    decreases e,
{
    match e {
        Expr::Literal(n) => Term::Literal(n@),
        Expr::Identifier(s) => Term::Identifier(s@),
        Expr::Binary { left, op, right } => Term::Binary(
            Box::new(term_of(*left)),
            op,
            Box::new(term_of(*right)),
        ),
        Expr::Unary { op, right } => Term::Unary(op, Box::new(term_of(*right))),
        Expr::Error => Term::Error,
    }
}

impl View for Expr {
    type V = Term;

    open spec fn view(&self) -> Term {
        term_of(*self)
    }
}

/// The number of nodes of a term.
pub open spec fn size(t: Term) -> nat
    decreases t,
{
    match t {
        Term::Binary(l, _, r) => 1 + size(*l) + size(*r),
        Term::Unary(_, r) => 1 + size(*r),
        _ => 1,
    }
}

pub open spec fn bin_op_text(op: BinOpKind) -> Seq<char> {
    match op {
        BinOpKind::Plus => seq!['+'],
        BinOpKind::Minus => seq!['-'],
        BinOpKind::Asterisk => seq!['*'],
        BinOpKind::Slash => seq!['/'],
        BinOpKind::Exponent => seq!['^'],
    }
}

pub open spec fn unary_op_text(op: UnaryOpKind) -> Seq<char> {
    match op {
        UnaryOpKind::Plus => seq!['+'],
        UnaryOpKind::Minus => seq!['-'],
    }
}

/// The canonical text of a term: every internal node in parentheses,
/// binary operators spaced, unary operators glued to their operand.
pub open spec fn term_text(t: Term) -> Seq<char>
    decreases t,
{
    match t {
        Term::Literal(v) => num_text(v),
        Term::Identifier(s) => s,
        Term::Binary(l, op, r) => seq!['('] + term_text(*l) + seq![' '] + bin_op_text(op) + seq![' ']
            + term_text(*r) + seq![')'],
        Term::Unary(op, r) => seq!['('] + unary_op_text(op) + term_text(*r) + seq![')'],
        Term::Error => seq!['e', 'r', 'r'],
    }
}

impl BinOpKind {
    pub fn text(&self) -> (r: &'static str)
        ensures
            r@ == bin_op_text(*self),
    {
        proof {
            reveal_strlit("+");
            reveal_strlit("-");
            reveal_strlit("*");
            reveal_strlit("/");
            reveal_strlit("^");
        }
        match self {
            BinOpKind::Plus => "+",
            BinOpKind::Minus => "-",
            BinOpKind::Asterisk => "*",
            BinOpKind::Slash => "/",
            BinOpKind::Exponent => "^",
        }
    }
}

impl UnaryOpKind {
    pub fn text(&self) -> (r: &'static str)
        ensures
            r@ == unary_op_text(*self),
    {
        proof {
            reveal_strlit("+");
            reveal_strlit("-");
        }
        match self {
            UnaryOpKind::Plus => "+",
            UnaryOpKind::Minus => "-",
        }
    }
}

impl Expr {
    /// A deep copy.
    pub fn duplicate(&self) -> (r: Expr)
        ensures
            r@ == self@,
        decreases self,
    {
        match self {
            Expr::Literal(n) => Expr::Literal(*n),
            Expr::Identifier(s) => Expr::Identifier(s.clone()),
            Expr::Binary { left, op, right } => Expr::Binary {
                left: Box::new(left.duplicate()),
                op: *op,
                right: Box::new(right.duplicate()),
            },
            Expr::Unary { op, right } => Expr::Unary { op: *op, right: Box::new(right.duplicate()) },
            Expr::Error => Expr::Error,
        }
    }

    /// Structural equality.
    pub fn equals(&self, other: &Expr) -> (r: bool)
        ensures
            r == (self@ == other@),
        decreases self,
    {
        match (self, other) {
            (Expr::Literal(a), Expr::Literal(b)) => {
                proof {
                    a.lemma_view_injective(*b);
                }
                *a == *b
            },
            (Expr::Identifier(a), Expr::Identifier(b)) => *a == *b,
            (
                Expr::Binary { left: l1, op: o1, right: r1 },
                Expr::Binary { left: l2, op: o2, right: r2 },
            ) => *o1 == *o2 && l1.equals(l2) && r1.equals(r2),
            (Expr::Unary { op: o1, right: r1 }, Expr::Unary { op: o2, right: r2 }) => *o1 == *o2
                && r1.equals(r2),
            (Expr::Error, Expr::Error) => true,
            _ => false,
        }
    }

    /// Appends the canonical text of this expression (see `term_text`).
    pub fn push_text(&self, out: &mut String)
        ensures
            final(out)@ == old(out)@ + term_text(self@),
        decreases self,
    {
        proof {
            reveal_strlit("(");
            reveal_strlit(")");
            reveal_strlit(" ");
            reveal_strlit("err");
        }
        match self {
            Expr::Literal(n) => n.push_text(out),
            Expr::Identifier(s) => out.append(s.as_str()),
            Expr::Binary { left, op, right } => {
                out.append("(");
                left.push_text(out);
                out.append(" ");
                out.append(op.text());
                out.append(" ");
                right.push_text(out);
                out.append(")");
            },
            Expr::Unary { op, right } => {
                out.append("(");
                out.append(op.text());
                right.push_text(out);
                out.append(")");
            },
            Expr::Error => out.append("err"),
        }
        proof {
            assert(final(out)@ =~= old(out)@ + term_text(self@));
        }
    }

    /// The canonical text of this expression (see `term_text`).
    pub fn to_string(&self) -> (r: String)
        ensures
            r@ == term_text(self@),
    {
        let mut out = String::new();
        self.push_text(&mut out);
        proof {
            assert(out@ =~= term_text(self@));
        }
        out
    }
}

/// A rewrite of expressions in place, such as a simplification.
pub trait ExprVisitor: Sized {
    /// What the visitor makes of a term.
    spec fn transform(&self, t: Term) -> Term;

    /// Rewrites `expr`; the visitor itself is left as it was.
    fn visit(&mut self, expr: &mut Expr)
        ensures
            final(expr)@ == old(self).transform(old(expr)@),
            *final(self) == *old(self),
    ;
}

/// The term with each child rewritten by `v`.
pub open spec fn children_with<V: ExprVisitor>(v: V, t: Term) -> Term {
    match t {
        Term::Binary(l, op, r) => Term::Binary(Box::new(v.transform(*l)), op, Box::new(v.transform(*r))),
        Term::Unary(op, r) => Term::Unary(op, Box::new(v.transform(*r))),
        _ => t,
    }
}

/// Visits each child of `expr` with `visitor`.
pub fn walk_expr<V: ExprVisitor>(expr: &mut Expr, visitor: &mut V)
    ensures
        final(expr)@ == children_with(*old(visitor), old(expr)@),
        *final(visitor) == *old(visitor),
{
    match expr {
        Expr::Binary { left, op: _, right } => {
            visitor.visit(left);
            visitor.visit(right);
        },
        Expr::Unary { op: _, right } => {
            visitor.visit(right);
        },
        _ => {},
    }
}

impl Clone for Expr {
    fn clone(&self) -> (r: Expr)
        ensures
            r@ == self@,
    {
        self.duplicate()
    }
}

impl PartialEq for Expr {
    fn eq(&self, other: &Expr) -> (r: bool) {
        self.equals(other)
    }
}

impl vstd::std_specs::cmp::PartialEqSpecImpl for Expr {
    open spec fn obeys_eq_spec() -> bool {
        true
    }

    open spec fn eq_spec(&self, other: &Expr) -> bool {
        self@ == other@
    }
}


/// The token at position `p`, `Eof` past the end.
pub open spec fn tok_at(ts: Seq<Tok>, p: int) -> Tok {
    if 0 <= p < ts.len() {
        ts[p]
    } else {
        Tok::Eof
    }
}

/// The position after eating the token at `p`; it stays at the end.
pub open spec fn next_pos(ts: Seq<Tok>, p: int) -> int {
    if p < ts.len() {
        p + 1
    } else {
        p
    }
}

pub open spec fn bin_op_of(t: Tok) -> BinOpKind {
    match t {
        Tok::Plus => BinOpKind::Plus,
        Tok::Minus => BinOpKind::Minus,
        Tok::Asterisk => BinOpKind::Asterisk,
        Tok::Slash => BinOpKind::Slash,
        _ => BinOpKind::Exponent,
    }
}

pub open spec fn msg_expected_expr() -> Seq<char> {
    "unexpected token, expected an expression"@
}

pub open spec fn msg_expected_paren() -> Seq<char> {
    "unexpected token, expected a '(' token"@
}

pub open spec fn msg_unexpected() -> Seq<char> {
    "unexpected token"@
}

/// What a parse step yields: a term, the position after it, and the
/// diagnostics it added.
pub type Step = (Term, int, Seq<Seq<char>>);

/// Prefix `-` folds into a literal operand and otherwise makes a negation
/// node; prefix `+` leaves its operand as it is.
pub open spec fn apply_prefix(t: Tok, operand: Term) -> Term {
    if t is Plus {
        operand
    } else {
        match operand {
            Term::Literal(v) => Term::Literal((-v.0, v.1)),
            _ => Term::Unary(UnaryOpKind::Minus, Box::new(operand)),
        }
    }
}

/// An expression whose operators bind at least as tightly as `min_bp`,
/// starting at position `p` (Pratt parsing).
pub open spec fn parse_bp(ts: Seq<Tok>, p: int, min_bp: int) -> Step
    decreases ts.len() - p, 2int,
{
    let t = tok_at(ts, p);
    if p < 0 || p > ts.len() {
        (Term::Error, p, seq![])
    } else {
        let head: Step = if prefix_bp(t) == -1 {
            parse_atom(ts, p)
        } else {
            let r = parse_bp(ts, p + 1, prefix_bp(t));
            (apply_prefix(t, r.0), r.1, r.2)
        };
        if head.1 < p || head.1 > ts.len() {
            head
        } else {
            let rest = parse_infix(ts, head.0, head.1, min_bp);
            (rest.0, rest.1, head.2 + rest.2)
        }
    }
}

/// The infix loop: while the next operator binds at least as tightly as
/// `min_bp`, it takes `left` and the operand after it as its children.
pub open spec fn parse_infix(ts: Seq<Tok>, left: Term, p: int, min_bp: int) -> Step
    decreases ts.len() - p, 0int,
{
    let t = tok_at(ts, p);
    let bp = infix_bp(t);
    if bp.0 < min_bp || p < 0 || p >= ts.len() {
        (left, p, seq![])
    } else {
        let r = parse_bp(ts, p + 1, bp.1);
        let node = Term::Binary(Box::new(left), bin_op_of(t), Box::new(r.0));
        if r.1 <= p || r.1 > ts.len() {
            (node, r.1, r.2)
        } else {
            let rest = parse_infix(ts, node, r.1, min_bp);
            (rest.0, rest.1, r.2 + rest.2)
        }
    }
}

/// A number, a name, or an expression in parentheses, at position `p`.
pub open spec fn parse_atom(ts: Seq<Tok>, p: int) -> Step
    decreases ts.len() - p, 1int,
{
    let t = tok_at(ts, p);
    if p < 0 || p > ts.len() {
        (Term::Error, p, seq![])
    } else {
        match t {
            Tok::Number(v) => (Term::Literal(v), next_pos(ts, p), seq![]),
            Tok::Identifier(s) => (Term::Identifier(s), next_pos(ts, p), seq![]),
            Tok::OpenParen => {
                let inner = parse_bp(ts, p + 1, 0);
                if tok_at(ts, inner.1) is CloseParen {
                    (inner.0, next_pos(ts, inner.1), inner.2)
                } else {
                    (Term::Error, next_pos(ts, inner.1), inner.2 + seq![msg_expected_paren()])
                }
            },
            _ => (Term::Error, next_pos(ts, p), seq![msg_expected_expr()]),
        }
    }
}

/// The rest of a token sequence from position `p`: one expression, then
/// the end of input, or a diagnostic for the token that stands there.
pub open spec fn parse_from(ts: Seq<Tok>, p: int) -> (Term, Seq<Seq<char>>) {
    let r = parse_bp(ts, p, 0);
    if tok_at(ts, r.1) is Eof {
        (r.0, r.2)
    } else {
        (r.0, r.2 + seq![msg_unexpected()])
    }
}

/// A whole token sequence (see `parse_from`).
pub open spec fn parse_tokens(ts: Seq<Tok>) -> (Term, Seq<Seq<char>>) {
    parse_from(ts, 0)
}

pub open spec fn texts(v: Seq<String>) -> Seq<Seq<char>> {
    v.map_values(|s: String| s@)
}

/// A Pratt parser over a token sequence; diagnostics accumulate in it.
pub struct Parser {
    tokens: Vec<Token>,
    pos: usize,
    errors: Vec<String>,
}

impl Parser {
    pub closed spec fn toks(&self) -> Seq<Tok> {
        tokens_view(self.tokens@)
    }

    pub closed spec fn position(&self) -> int {
        self.pos as int
    }

    pub closed spec fn diagnostics(&self) -> Seq<Seq<char>> {
        texts(self.errors@)
    }

    pub closed spec fn wf(&self) -> bool {
        self.pos <= self.tokens@.len()
    }

    pub fn new(tokens: Vec<Token>) -> (r: Parser)
        ensures
            r.wf(),
            r.toks() == tokens_view(tokens@),
            r.position() == 0,
            r.diagnostics() == Seq::<Seq<char>>::empty(),
    {
        let r = Parser { tokens, pos: 0, errors: Vec::new() };
        proof {
            assert(r.diagnostics() =~= Seq::<Seq<char>>::empty());
        }
        r
    }

    /// Parses one expression and the end of input after it. Diagnostics
    /// are added to `errors`; the tree is returned whatever they are.
    pub fn parse(&mut self) -> (r: Expr)
        requires
            old(self).wf(),
        ensures
            final(self).wf(),
            final(self).toks() == old(self).toks(),
            r@ == parse_from(old(self).toks(), old(self).position()).0,
            final(self).diagnostics() == old(self).diagnostics() + parse_from(
                old(self).toks(),
                old(self).position(),
            ).1,
    {
        let ghost e0 = self.diagnostics();
        let e = self.parse_expr_bp(0);
        let ghost e1 = self.diagnostics();
        let t = self.eat_tok();
        match t {
            Token::Eof => {},
            _ => self.unexpected(),
        }
        proof {
            assert(self.diagnostics() =~= e0 + parse_from(old(self).toks(), old(self).position()).1);
        }
        e
    }

    pub fn errors(&self) -> (r: &Vec<String>)
        ensures
            texts(r@) == self.diagnostics(),
    {
        &self.errors
    }

    fn current_infix_bp(&self) -> (r: (i32, i32))
        requires
            self.wf(),
        ensures
            (r.0 as int, r.1 as int) == infix_bp(tok_at(self.toks(), self.position())),
    {
        if self.pos < self.tokens.len() {
            self.tokens[self.pos].get_infix_bp()
        } else {
            (-1, -1)
        }
    }

    fn current_prefix_bp(&self) -> (r: i32)
        requires
            self.wf(),
        ensures
            r as int == prefix_bp(tok_at(self.toks(), self.position())),
    {
        if self.pos < self.tokens.len() {
            self.tokens[self.pos].get_prefix_bp().1
        } else {
            -1
        }
    }

    /// Returns the current token and moves past it.
    fn eat_tok(&mut self) -> (r: Token)
        requires
            old(self).wf(),
        ensures
            final(self).wf(),
            final(self).toks() == old(self).toks(),
            final(self).diagnostics() == old(self).diagnostics(),
            r@ == tok_at(old(self).toks(), old(self).position()),
            final(self).position() == next_pos(old(self).toks(), old(self).position()),
    {
        if self.pos < self.tokens.len() {
            let t = copy_token(&self.tokens[self.pos]);
            self.pos = self.pos + 1;
            t
        } else {
            Token::Eof
        }
    }

    fn push_error(&mut self, msg: &str)
        ensures
            final(self).tokens == old(self).tokens,
            final(self).pos == old(self).pos,
            final(self).diagnostics() == old(self).diagnostics() + seq![msg@],
    {
        self.errors.push(String::from_str(msg));
        proof {
            assert(self.diagnostics() =~= old(self).diagnostics() + seq![msg@]);
        }
    }

    fn unexpected(&mut self)
        ensures
            final(self).tokens == old(self).tokens,
            final(self).pos == old(self).pos,
            final(self).diagnostics() == old(self).diagnostics() + seq![msg_unexpected()],
    {
        self.push_error("unexpected token");
    }

    fn parse_expr_bp(&mut self, min_bp: i32) -> (r: Expr)
        requires
            old(self).wf(),
            0 <= min_bp,
        ensures
            final(self).wf(),
            final(self).toks() == old(self).toks(),
            final(self).position() >= old(self).position(),
            ({
                let s = parse_bp(old(self).toks(), old(self).position(), min_bp as int);
                r@ == s.0 && final(self).position() == s.1 && final(self).diagnostics()
                    == old(self).diagnostics() + s.2
            }),
        decreases old(self).toks().len() - old(self).position(), 2int,
    {
        let ghost ts = self.toks();
        let ghost p = self.position();
        let ghost e0 = self.diagnostics();
        let pbp = self.current_prefix_bp();
        let left = if pbp == -1 {
            self.parse_atom()
        } else {
            let prefix = self.eat_tok();
            let right = self.parse_expr_bp(pbp);
            match prefix {
                Token::Plus => right,
                _ => match right {
                    Expr::Literal(n) => Expr::Literal(n.neg()),
                    _ => Expr::Unary { op: UnaryOpKind::Minus, right: Box::new(right) },
                },
            }
        };
        let ghost head: Step = if prefix_bp(tok_at(ts, p)) == -1 {
            parse_atom(ts, p)
        } else {
            let r = parse_bp(ts, p + 1, prefix_bp(tok_at(ts, p)));
            (apply_prefix(tok_at(ts, p), r.0), r.1, r.2)
        };
        assert(left@ == head.0 && self.position() == head.1 && self.diagnostics() == e0 + head.2);
        let ghost e1 = self.diagnostics();
        let r = self.parse_infix(left, min_bp);
        proof {
            assert(self.diagnostics() =~= e0 + (head.2 + parse_infix(ts, head.0, head.1, min_bp as int).2));
        }
        r
    }

    fn parse_infix(&mut self, left: Expr, min_bp: i32) -> (r: Expr)
        requires
            old(self).wf(),
            0 <= min_bp,
        ensures
            final(self).wf(),
            final(self).toks() == old(self).toks(),
            final(self).position() >= old(self).position(),
            ({
                let s = parse_infix(old(self).toks(), left@, old(self).position(), min_bp as int);
                r@ == s.0 && final(self).position() == s.1 && final(self).diagnostics()
                    == old(self).diagnostics() + s.2
            }),
        decreases old(self).toks().len() - old(self).position(), 0int,
    {
        let ghost ts = self.toks();
        let ghost p = self.position();
        let ghost e0 = self.diagnostics();
        let bp = self.current_infix_bp();
        if bp.0 < min_bp {
            proof {
                assert(self.diagnostics() =~= e0 + Seq::<Seq<char>>::empty());
            }
            left
        } else {
            let t = self.eat_tok();
            let op = match t {
                Token::Plus => BinOpKind::Plus,
                Token::Minus => BinOpKind::Minus,
                Token::Asterisk => BinOpKind::Asterisk,
                Token::Slash => BinOpKind::Slash,
                _ => BinOpKind::Exponent,
            };
            let right = self.parse_expr_bp(bp.1);
            let node = Expr::Binary { left: Box::new(left), op, right: Box::new(right) };
            let ghost e1 = self.diagnostics();
            let r = self.parse_infix(node, min_bp);
            proof {
                let rb = parse_bp(ts, p + 1, bp.1 as int);
                assert(self.diagnostics() =~= e0 + (rb.2 + parse_infix(ts, node@, rb.1, min_bp as int).2));
            }
            r
        }
    }

    fn parse_atom(&mut self) -> (r: Expr)
        requires
            old(self).wf(),
        ensures
            final(self).wf(),
            final(self).toks() == old(self).toks(),
            final(self).position() >= old(self).position(),
            ({
                let s = parse_atom(old(self).toks(), old(self).position());
                r@ == s.0 && final(self).position() == s.1 && final(self).diagnostics()
                    == old(self).diagnostics() + s.2
            }),
        decreases old(self).toks().len() - old(self).position(), 1int,
    {
        let ghost ts = self.toks();
        let ghost p = self.position();
        let ghost e0 = self.diagnostics();
        let t = self.eat_tok();
        match t {
            Token::Number(n) => {
                proof {
                    assert(self.diagnostics() =~= e0 + Seq::<Seq<char>>::empty());
                }
                Expr::Literal(n)
            },
            Token::Identifier(s) => {
                proof {
                    assert(self.diagnostics() =~= e0 + Seq::<Seq<char>>::empty());
                }
                Expr::Identifier(s)
            },
            Token::OpenParen => {
                let inner = self.parse_expr_bp(0);
                let ghost e1 = self.diagnostics();
                let close = self.eat_tok();
                match close {
                    Token::CloseParen => inner,
                    _ => {
                        proof {
                            reveal_strlit("unexpected token, expected a '(' token");
                        }
                        self.push_error("unexpected token, expected a '(' token");
                        proof {
                            assert(self.diagnostics() =~= e0 + (parse_bp(ts, p + 1, 0).2 + seq![
                                msg_expected_paren(),
                            ]));
                        }
                        Expr::Error
                    },
                }
            },
            _ => {
                self.push_error("unexpected token, expected an expression");
                proof {
                    assert(self.diagnostics() =~= e0 + seq![msg_expected_expr()]);
                }
                Expr::Error
            },
        }
    }
}

fn copy_token(t: &Token) -> (r: Token)
    ensures
        r@ == t@,
{
    match t {
        Token::Number(n) => Token::Number(*n),
        Token::Identifier(s) => Token::Identifier(s.clone()),
        Token::Plus => Token::Plus,
        Token::Minus => Token::Minus,
        Token::Asterisk => Token::Asterisk,
        Token::Slash => Token::Slash,
        Token::Exponent => Token::Exponent,
        Token::OpenParen => Token::OpenParen,
        Token::CloseParen => Token::CloseParen,
        Token::Error => Token::Error,
        Token::Eof => Token::Eof,
    }
}

} // verus!
